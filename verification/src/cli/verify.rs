//! `verify`: compare the state a board ends in with an expected one.
//!
//! A fixture latches the outputs of the listed user inputs high, runs the board, and says what the
//! links and output pins should show then.

use vstd::prelude::*;
use vstd::string::StringExecFns;
#[allow(unused_imports)]
use rayon::ThreadPool;
#[allow(unused_imports)]
use crate::behavior::PartState;
use crate::board::BoardDescriptor;
use crate::cli::run;
#[allow(unused_imports)]
use crate::clock::Gauge;
use crate::error::SimError;
#[allow(unused_imports)]
use crate::machine::{self, Machine};
#[allow(unused_imports)]
use crate::netlist::{BoardModel, Netlist, Part};
#[allow(unused_imports)]
use crate::pool;
#[allow(unused_imports)]
use crate::sim::{driver, RunConfig, Simulation};
use crate::text;
use crate::types::{CompType, InputEvent};

verus! {

/// The options of `verify`.
#[derive(Clone, Debug)]
pub struct VerifyArgs {
    /// The names of the fixtures to check.
    pub fixtures: Vec<String>,
}

/// The state a board should end in. Components and pins past the listed ones are not compared.
pub struct Expected {
    pub links: Vec<bool>,
    /// What the output pins of each component should drive.
    pub components: Vec<Vec<bool>>,
}

/// A board, how to run it, and the state it should end in.
pub struct Fixture {
    pub ticks: Option<u64>,
    /// Time to run, in milliseconds.
    pub ms: Option<u64>,
    pub threads: Option<usize>,
    /// User inputs to latch high before the run.
    pub input_triggers: Vec<u32>,
    pub expected: Expected,
    pub board: BoardDescriptor,
}

/// A difference between the expected state and the one the board ended in.
#[derive(Clone, Copy, PartialEq, Eq, Debug, Structural)]
pub enum Mismatch {
    /// An output pin drives something else.
    Pin { comp: usize, pin: usize, expected: bool, got: bool },
    /// A link shows something else.
    Link { link: usize, expected: bool, got: bool },
}

/// A value in words.
pub open spec fn truth(b: bool) -> Seq<char> {
    if b {
        "true"@
    } else {
        "false"@
    }
}

/// Append a value in words.
fn push_truth(s: &mut String, b: bool)
    ensures
        final(s)@ == old(s)@ + truth(b),
{
    if b {
        s.append("true");
    } else {
        s.append("false");
    }
}

impl Mismatch {
    /// The report of the difference.
    pub open spec fn text(self) -> Seq<char> {
        match self {
            Mismatch::Pin { comp, pin, expected, got } => "component["@ + text::decimal(comp as nat)
                + "]["@ + text::decimal(pin as nat) + "]: expected "@ + truth(expected) + ", got "@
                + truth(got),
            Mismatch::Link { link, expected, got } => "link["@ + text::decimal(link as nat)
                + "]: expected "@ + truth(expected) + ", got "@ + truth(got),
        }
    }

    /// The report of the difference.
    pub fn message(&self) -> (r: String)
        ensures
            r@ == self.text(),
    {
        let mut s: String = String::new();
        match self {
            Mismatch::Pin { comp, pin, expected, got } => {
                s.append("component[");
                text::push_decimal(&mut s, *comp as u64);
                s.append("][");
                text::push_decimal(&mut s, *pin as u64);
                s.append("]: expected ");
                push_truth(&mut s, *expected);
                s.append(", got ");
                push_truth(&mut s, *got);
            },
            Mismatch::Link { link, expected, got } => {
                s.append("link[");
                text::push_decimal(&mut s, *link as u64);
                s.append("]: expected ");
                push_truth(&mut s, *expected);
                s.append(", got ");
                push_truth(&mut s, *got);
            },
        }
        assert(s@ =~= self.text());
        s
    }
}

/// The differences among the first `n` pins listed for component `c`.
pub open spec fn pin_mismatches(row: Seq<bool>, part: Part, st: PartState, c: int, n: int) -> Seq<
    Mismatch,
>
    decreases n,
{
    if n <= 0 {
        Seq::empty()
    } else {
        let before = pin_mismatches(row, part, st, c, n - 1);
        let got = part.drives(st, n - 1);
        if got == row[n - 1] {
            before
        } else {
            before.push(
                Mismatch::Pin { comp: c as usize, pin: (n - 1) as usize, expected: row[n - 1], got },
            )
        }
    }
}

/// The differences among the first `n` components listed.
pub open spec fn component_mismatches(
    rows: Seq<Vec<bool>>,
    net: Netlist,
    m: Machine,
    n: int,
) -> Seq<Mismatch>
    decreases n,
{
    if n <= 0 {
        Seq::empty()
    } else {
        component_mismatches(rows, net, m, n - 1) + pin_mismatches(
            rows[n - 1]@,
            net.parts[n - 1],
            m.parts[n - 1],
            n - 1,
            rows[n - 1]@.len() as int,
        )
    }
}

/// The differences among the first `n` links listed.
pub open spec fn link_mismatches(links: Seq<bool>, m: Machine, n: int) -> Seq<Mismatch>
    decreases n,
{
    if n <= 0 {
        Seq::empty()
    } else {
        let before = link_mismatches(links, m, n - 1);
        if m.links[n - 1] == links[n - 1] {
            before
        } else {
            before.push(
                Mismatch::Link {
                    link: (n - 1) as usize,
                    expected: links[n - 1],
                    got: m.links[n - 1],
                },
            )
        }
    }
}

impl Expected {
    /// The differences between the expected state and state `m`.
    pub open spec fn mismatches(self, net: Netlist, m: Machine) -> Seq<Mismatch> {
        component_mismatches(self.components@, net, m, self.components@.len() as int)
            + link_mismatches(self.links@, m, self.links@.len() as int)
    }

    /// The first component from position `from` on that more pins are listed for than it has.
    pub open spec fn first_long_row(self, b: BoardModel, from: int) -> int
        decreases self.components@.len() - from,
    {
        if from < 0 || from >= self.components@.len() || self.components@[from]@.len()
            > b.components[from].outputs.len() {
            from
        } else {
            self.first_long_row(b, from + 1)
        }
    }

    /// Nothing is listed that the board does not have.
    pub open spec fn within(self, b: BoardModel) -> bool {
        &&& self.components@.len() <= b.components.len()
        &&& self.links@.len() <= b.links
        &&& forall|i: int|
            0 <= i < self.components@.len() ==> (#[trigger] self.components@[i])@.len()
                <= b.components[i].outputs.len()
    }
}

/// Why user input `idx` cannot be latched, if it cannot.
pub open spec fn input_fault(net: Netlist, idx: u32) -> Option<Seq<char>> {
    if idx >= net.parts.len() {
        Some("inputTriggers index "@ + text::decimal(idx as nat) + " out of range"@)
    } else if net.parts[idx as int].ty != CompType::UserInput {
        Some(
            "trigger_input(comp "@ + text::decimal(idx as nat) + "): "@ + SimError::NotAnInput(
                idx,
            ).text(),
        )
    } else {
        None
    }
}

/// The first of the user inputs from position `from` on that cannot be latched.
pub open spec fn first_bad_input(net: Netlist, inputs: Seq<u32>, from: int) -> int
    decreases inputs.len() - from,
{
    if from < 0 || from >= inputs.len() || input_fault(net, inputs[from]) is Some {
        from
    } else {
        first_bad_input(net, inputs, from + 1)
    }
}

/// The state once the first `n` of the user inputs have been latched high.
pub open spec fn latched(net: Netlist, m: Machine, inputs: Seq<u32>, n: int) -> Machine
    decreases n,
{
    if n <= 0 {
        m
    } else {
        let c = inputs[n - 1];
        latched(net, m, inputs, n - 1).latched(
            net,
            c,
            Seq::new(net.parts[c as int].outputs.len(), |p: int| true),
        )
    }
}

impl Fixture {
    /// What is wrong with the fixture itself, before its board is looked at.
    pub open spec fn shape_fault(self) -> Option<Seq<char>> {
        let b = self.board@;
        let long = self.expected.first_long_row(b, 0);
        if self.ticks is None && self.ms is None {
            Some("fixture sets neither `ticks` nor `ms` (the run would never terminate)"@)
        } else if self.expected.components@.len() > b.components.len() {
            Some(
                "expected lists "@ + text::decimal(self.expected.components@.len())
                    + " components, board has "@ + text::decimal(b.components.len()),
            )
        } else if self.expected.links@.len() > b.links {
            Some(
                "expected lists "@ + text::decimal(self.expected.links@.len())
                    + " links, board has "@ + text::decimal(b.links as nat),
            )
        } else if long < self.expected.components@.len() {
            Some(
                "expected component["@ + text::decimal(long as nat) + "] lists "@ + text::decimal(
                    self.expected.components@[long]@.len(),
                ) + " pins, board component drives "@ + text::decimal(
                    b.components[long].outputs.len(),
                ),
            )
        } else {
            None
        }
    }

    /// The first fault that keeps the fixture from being run.
    pub open spec fn fault(self) -> Option<Seq<char>> {
        let net = self.board@.netlist();
        let bad = first_bad_input(net, self.input_triggers@, 0);
        match self.shape_fault() {
            Some(why) => Some(why),
            None => match self.board@.fault() {
                Some(e) => Some(e.text()),
                None => if bad < self.input_triggers@.len() {
                    input_fault(net, self.input_triggers@[bad])
                } else {
                    None
                },
            },
        }
    }

    /// The state the run starts from.
    pub open spec fn start(self) -> Machine {
        let net = self.board@.netlist();
        latched(
            net,
            machine::start(net),
            self.input_triggers@,
            self.input_triggers@.len() as int,
        )
    }

    /// The most ticks the run takes.
    pub open spec fn most_ticks(self) -> u64 {
        if self.ticks is Some {
            self.ticks->0
        } else {
            u64::MAX
        }
    }

    /// The fixture sets more than one thread.
    pub open spec fn threaded(self) -> bool {
        self.threads matches Some(n) && n > 1
    }

    /// The run of the fixture that ends at `end` heeded the time limit, as the clock had it.
    pub open spec fn keeps_time(self, end: Machine) -> bool {
        exists|g: Gauge| #[trigger]
            driver::timed(
                0,
                self.start().tick,
                run::nanos_of(self.ms),
                self.most_ticks(),
                machine::ticks_between(self.start(), end),
                g,
            )
    }

    /// Threads the fixture is run on.
    pub open spec fn thread_count(self) -> usize {
        match self.threads {
            Some(n) => n,
            None => 1,
        }
    }

    /// What is wrong with the fixture itself.
    fn check_shape(&self) -> (r: Result<(), String>)
        ensures
            match self.shape_fault() {
                Some(why) => r matches Err(e) && e@ == why,
                None => r is Ok && self.expected.within(self.board@),
            },
    {
        let ghost b = self.board@;
        if self.ticks.is_none() && self.ms.is_none() {
            return Err(
                String::from_str(
                    "fixture sets neither `ticks` nor `ms` (the run would never terminate)",
                ),
            );
        }
        let n: usize = self.expected.components.len();
        let have: usize = self.board.components.len();
        if n > have {
            let mut s: String = String::from_str("expected lists ");
            text::push_decimal(&mut s, n as u64);
            s.append(" components, board has ");
            text::push_decimal(&mut s, have as u64);
            assert(s@ =~= "expected lists "@ + text::decimal(n as nat) + " components, board has "@
                + text::decimal(have as nat));
            return Err(s);
        }
        let links: usize = self.expected.links.len();
        if links as u64 > self.board.link_count as u64 {
            let mut s: String = String::from_str("expected lists ");
            text::push_decimal(&mut s, links as u64);
            s.append(" links, board has ");
            text::push_decimal(&mut s, self.board.link_count as u64);
            assert(s@ =~= "expected lists "@ + text::decimal(links as nat) + " links, board has "@
                + text::decimal(self.board.link_count as nat));
            return Err(s);
        }
        let mut i: usize = 0;
        while i < n
            invariant
                i <= n,
                n == self.expected.components@.len(),
                n <= b.components.len(),
                b == self.board@,
                self.expected.links@.len() <= b.links,
                self.ticks is Some || self.ms is Some,
                self.expected.first_long_row(b, 0) == self.expected.first_long_row(b, i as int),
                forall|k: int|
                    0 <= k < i ==> (#[trigger] self.expected.components@[k])@.len()
                        <= b.components[k].outputs.len(),
            decreases n - i,
        {
            let listed: usize = self.expected.components[i].len();
            let pins: usize = self.board.components[i].outputs.len();
            assert(b.components[i as int] == self.board.components@[i as int]@);
            if listed > pins {
                let mut s: String = String::from_str("expected component[");
                text::push_decimal(&mut s, i as u64);
                s.append("] lists ");
                text::push_decimal(&mut s, listed as u64);
                s.append(" pins, board component drives ");
                text::push_decimal(&mut s, pins as u64);
                assert(s@ =~= "expected component["@ + text::decimal(i as nat) + "] lists "@
                    + text::decimal(listed as nat) + " pins, board component drives "@
                    + text::decimal(pins as nat));
                return Err(s);
            }
            i = i + 1;
        }
        Ok(())
    }

    /// Latch the user inputs high.
    fn latch_inputs(&self, sim: &mut Simulation) -> (r: Result<(), String>)
        requires
            old(sim).wf(),
            old(sim).net() == self.board@.netlist(),
        ensures
            final(sim).wf(),
            final(sim).net() == old(sim).net(),
            final(sim).gauge() == old(sim).gauge(),
            ({
                let bad = first_bad_input(old(sim).net(), self.input_triggers@, 0);
                if bad < self.input_triggers@.len() {
                    r matches Err(e) && Some(e@) == input_fault(
                        old(sim).net(),
                        self.input_triggers@[bad],
                    )
                } else {
                    r is Ok && final(sim)@ == latched(
                        old(sim).net(),
                        old(sim)@,
                        self.input_triggers@,
                        self.input_triggers@.len() as int,
                    )
                }
            }),
    {
        let ghost net = sim.net();
        let ghost m = sim@;
        let n: usize = self.input_triggers.len();
        let mut i: usize = 0;
        while i < n
            invariant
                i <= n,
                n == self.input_triggers@.len(),
                sim.wf(),
                sim.net() == net,
                net == self.board@.netlist(),
                net == old(sim).net(),
                sim.gauge() == old(sim).gauge(),
                m == old(sim)@,
                sim@ == latched(net, m, self.input_triggers@, i as int),
                first_bad_input(net, self.input_triggers@, 0) == first_bad_input(
                    net,
                    self.input_triggers@,
                    i as int,
                ),
            decreases n - i,
        {
            let idx: u32 = self.input_triggers[i];
            if idx as u64 >= self.board.components.len() as u64 {
                let mut s: String = String::from_str("inputTriggers index ");
                text::push_decimal(&mut s, idx as u64);
                s.append(" out of range");
                assert(s@ =~= "inputTriggers index "@ + text::decimal(idx as nat)
                    + " out of range"@);
                return Err(s);
            }
            let pins: usize = self.board.components[idx as usize].outputs.len();
            let high: Vec<bool> = vec![true; pins];
            assert(high@ =~= Seq::new(net.parts[idx as int].outputs.len(), |p: int| true));
            if let Err(e) = sim.trigger_input(idx, InputEvent::Cont, high.as_slice()) {
                let mut s: String = String::from_str("trigger_input(comp ");
                text::push_decimal(&mut s, idx as u64);
                s.append("): ");
                s.append(e.message().as_str());
                assert(s@ =~= "trigger_input(comp "@ + text::decimal(idx as nat) + "): "@
                    + e.text());
                return Err(s);
            }
            i = i + 1;
        }
        Ok(())
    }
}

/// Compare the state of a simulation with an expected one.
pub fn compare(sim: &Simulation, expected: &Expected) -> (r: Vec<Mismatch>)
    requires
        sim.wf(),
        expected.components@.len() <= sim.net().parts.len(),
        expected.links@.len() <= sim.net().links,
        forall|i: int|
            0 <= i < expected.components@.len() ==> (#[trigger] expected.components@[i])@.len()
                <= sim.net().parts[i].outputs.len(),
    ensures
        r@ == expected.mismatches(sim.net(), sim@),
{
    let ghost net = sim.net();
    let ghost m = sim@;
    proof {
        sim.law_state_is_valid();
    }
    let mut out: Vec<Mismatch> = Vec::new();
    let n: usize = expected.components.len();
    let mut i: usize = 0;
    while i < n
        invariant
            i <= n,
            n == expected.components@.len(),
            n <= net.parts.len() <= u32::MAX,
            sim.wf(),
            net == sim.net(),
            m == sim@,
            forall|k: int|
                0 <= k < n ==> (#[trigger] expected.components@[k])@.len()
                    <= net.parts[k].outputs.len(),
            out@ == component_mismatches(expected.components@, net, m, i as int),
        decreases n - i,
    {
        let row: &Vec<bool> = &expected.components[i];
        let ghost before = out@;
        let pins: usize = row.len();
        let mut p: usize = 0;
        while p < pins
            invariant
                p <= pins,
                i < n <= net.parts.len() <= u32::MAX,
                sim.wf(),
                net == sim.net(),
                m == sim@,
                pins == row@.len(),
                pins <= net.parts[i as int].outputs.len(),
                out@ == before + pin_mismatches(
                    row@,
                    net.parts[i as int],
                    m.parts[i as int],
                    i as int,
                    p as int,
                ),
            decreases pins - p,
        {
            let got: bool = sim.output(i as u32, p);
            if got != row[p] {
                out.push(Mismatch::Pin { comp: i, pin: p, expected: row[p], got });
            }
            p = p + 1;
            assert(out@ =~= before + pin_mismatches(
                row@,
                net.parts[i as int],
                m.parts[i as int],
                i as int,
                p as int,
            ));
        }
        i = i + 1;
    }
    let ghost before = out@;
    let links: usize = expected.links.len();
    let mut l: usize = 0;
    while l < links
        invariant
            l <= links,
            links == expected.links@.len(),
            links <= net.links <= u32::MAX,
            sim.wf(),
            net == sim.net(),
            m == sim@,
            out@ == before + link_mismatches(expected.links@, m, l as int),
        decreases links - l,
    {
        let got: bool = sim.link(l as u32);
        if got != expected.links[l] {
            out.push(Mismatch::Link { link: l, expected: expected.links[l], got });
        }
        l = l + 1;
        assert(out@ =~= before + link_mismatches(expected.links@, m, l as int));
    }
    out
}

/// What checking a fixture comes to.
pub open spec fn comes_to(fx: &Fixture, r: Result<Vec<Mismatch>, String>) -> bool {
    match fx.fault() {
        Some(why) => r matches Err(e) && e@ == why,
        None => {
            let net = fx.board@.netlist();
            &&& !fx.threaded() ==> r is Ok
            &&& r matches Ok(list) ==> exists|end: Machine| #[trigger]
                fx.start().runs_to(
                    net,
                    fx.most_ticks(),
                    fx.ms is Some,
                    end,
                ) && list@ == fx.expected.mismatches(net, end) && fx.keeps_time(end)
            &&& fx.threaded() && r is Ok ==> exists|p: ThreadPool| #[trigger]
                pool::supplied(fx.thread_count(), p)
            &&& r is Err ==> exists|e: SimError| #[trigger]
                e.text() == r->Err_0@ && driver::pool_error(fx.thread_count(), e)
        },
    }
}

/// Run a fixture and list the differences between the state it ends in and the expected one. An
/// error means that the fixture could not be run.
pub fn verify_one(fx: &Fixture) -> (r: Result<Vec<Mismatch>, String>)
    requires
        fx.board@.fits(),
    ensures
        comes_to(fx, r),
{
    let ghost net = fx.board@.netlist();
    if let Err(why) = fx.check_shape() {
        return Err(why);
    }
    let mut sim: Simulation = match Simulation::from_descriptor(&fx.board) {
        Ok(sim) => sim,
        Err(e) => {
            return Err(e.message());
        },
    };
    if let Err(why) = fx.latch_inputs(&mut sim) {
        return Err(why);
    }
    let cfg = RunConfig {
        ticks: match fx.ticks {
            Some(n) => n,
            None => u64::MAX,
        },
        timeout: run::nanos(fx.ms),
        threads: match fx.threads {
            Some(n) => n,
            None => 1,
        },
        par_threshold: RunConfig::default().par_threshold,
    };
    if let Err(e) = sim.run(cfg) {
        let failed: Result<Vec<Mismatch>, String> = Err(e.message());
        assert(e.text() == failed->Err_0@);
        return failed;
    }
    let done: Result<Vec<Mismatch>, String> = Ok(compare(&sim, &fx.expected));
    assert(cfg.threads == fx.thread_count());
    assert(fx.threaded() ==> exists|p: ThreadPool| #[trigger]
        pool::supplied(fx.thread_count(), p));
    assert(fx.start().runs_to(net, fx.most_ticks(), fx.ms is Some, sim@));
    assert(fx.keeps_time(sim@)) by {
        assert(driver::timed(
            0,
            fx.start().tick,
            run::nanos_of(fx.ms),
            fx.most_ticks(),
            machine::ticks_between(fx.start(), sim@),
            sim.gauge(),
        ));
    }
    assert(done->Ok_0@ == fx.expected.mismatches(net, sim@));
    done
}

/// The report on a fixture that could be run.
pub struct Report {
    pub passed: bool,
    /// A line on the fixture, then one for each difference.
    pub lines: Vec<String>,
}

impl Report {
    /// The report on the named fixture with these differences.
    pub open spec fn on(self, name: Seq<char>, list: Seq<Mismatch>) -> bool {
        &&& self.passed == (list.len() == 0)
        &&& self.lines@.len() == list.len() + 1
        &&& self.lines@[0]@ == name + (if self.passed {
            ": passed"@
        } else {
            ": FAILED"@
        })
        &&& forall|i: int|
            0 <= i < list.len() ==> (#[trigger] self.lines@[i + 1])@ == "  "@ + list[i].text()
    }
}

/// Report on a fixture.
pub fn report(name: &str, mismatches: &[Mismatch]) -> (r: Report)
    ensures
        r.on(name@, mismatches@),
{
    let passed: bool = mismatches.len() == 0;
    let mut head: String = String::from_str(name);
    if passed {
        head.append(": passed");
    } else {
        head.append(": FAILED");
    }
    let ghost title = head@;
    let mut lines: Vec<String> = Vec::new();
    lines.push(head);
    let n: usize = mismatches.len();
    let mut i: usize = 0;
    while i < n
        invariant
            i <= n,
            n == mismatches@.len(),
            lines@.len() == i + 1,
            lines@[0]@ == title,
            forall|k: int|
                1 <= k < lines@.len() ==> (#[trigger] lines@[k])@ == "  "@ + mismatches@[k
                    - 1].text(),
        decreases n - i,
    {
        let mut line: String = String::from_str("  ");
        line.append(mismatches[i].message().as_str());
        lines.push(line);
        i = i + 1;
    }
    Report { passed, lines }
}

/// Every fixture passed.
pub open spec fn all_passed(passed: Seq<bool>) -> bool {
    forall|i: int| 0 <= i < passed.len() ==> passed[i]
}

/// The exit code for fixtures with these outcomes: 0 where all passed, 1 otherwise.
pub fn exit_code(passed: &[bool]) -> (r: u8)
    ensures
        r == (if all_passed(passed@) {
            0u8
        } else {
            1u8
        }),
{
    let n: usize = passed.len();
    let mut i: usize = 0;
    while i < n
        invariant
            i <= n,
            n == passed@.len(),
            forall|k: int| 0 <= k < i ==> passed@[k],
        decreases n - i,
    {
        if !passed[i] {
            return 1;
        }
        i = i + 1;
    }
    0
}

/// A fixture passes exactly when every listed pin and every listed link shows what is expected.
pub proof fn law_passing_means_agreeing(expected: Expected, net: Netlist, m: Machine)
    ensures
        expected.mismatches(net, m).len() == 0 <==> {
            &&& forall|c: int, p: int|
                0 <= c < expected.components@.len() && 0 <= p < expected.components@[c]@.len()
                    ==> #[trigger] expected.components@[c]@[p] == net.parts[c].drives(
                    m.parts[c],
                    p,
                )
            &&& forall|l: int|
                0 <= l < expected.links@.len() ==> #[trigger] expected.links@[l] == m.links[l]
        },
{
    let rows = expected.components@;
    lemma_component_mismatches(rows, net, m, rows.len() as int);
    lemma_link_mismatches(expected.links@, m, expected.links@.len() as int);
}

proof fn lemma_pin_mismatches(row: Seq<bool>, part: Part, st: PartState, c: int, n: int)
    ensures
        pin_mismatches(row, part, st, c, n).len() == 0 <==> forall|p: int|
            0 <= p < n ==> #[trigger] row[p] == part.drives(st, p),
    decreases n,
{
    if n > 0 {
        lemma_pin_mismatches(row, part, st, c, n - 1);
        assert(row[n - 1] == row[n - 1]);
    }
}

proof fn lemma_component_mismatches(rows: Seq<Vec<bool>>, net: Netlist, m: Machine, n: int)
    ensures
        component_mismatches(rows, net, m, n).len() == 0 <==> forall|c: int, p: int|
            0 <= c < n && 0 <= p < rows[c]@.len() ==> #[trigger] rows[c]@[p] == net.parts[c].drives(
                m.parts[c],
                p,
            ),
    decreases n,
{
    if n > 0 {
        lemma_component_mismatches(rows, net, m, n - 1);
        lemma_pin_mismatches(
            rows[n - 1]@,
            net.parts[n - 1],
            m.parts[n - 1],
            n - 1,
            rows[n - 1]@.len() as int,
        );
    }
}

proof fn lemma_link_mismatches(links: Seq<bool>, m: Machine, n: int)
    ensures
        link_mismatches(links, m, n).len() == 0 <==> forall|l: int|
            0 <= l < n ==> #[trigger] links[l] == m.links[l],
    decreases n,
{
    if n > 0 {
        lemma_link_mismatches(links, m, n - 1);
        assert(links[n - 1] == links[n - 1]);
    }
}

/// Latching some user inputs sets their outputs and leaves everything else but the schedule alone.
proof fn lemma_latched(net: Netlist, m: Machine, inputs: Seq<u32>, n: int)
    requires
        m.parts.len() == net.parts.len(),
        0 <= n <= inputs.len(),
        forall|i: int| 0 <= i < inputs.len() ==> #[trigger] inputs[i] < net.parts.len(),
    ensures
        ({
            let next = latched(net, m, inputs, n);
            &&& next.parts.len() == net.parts.len()
            &&& next.links == m.links
            &&& next.pulses == m.pulses
            &&& next.reads == m.reads
            &&& next.changed == m.changed
            &&& next.tick == m.tick
            &&& forall|i: int, p: int|
                0 <= i < n && 0 <= p < net.parts[inputs[i] as int].outputs.len()
                    ==> #[trigger] next.parts[inputs[i] as int].outs[p]
            &&& forall|i: int|
                0 <= i < n ==> (#[trigger] next.parts[inputs[i] as int]).outs.len()
                    == net.parts[inputs[i] as int].outputs.len()
            &&& forall|c: int|
                0 <= c < net.parts.len() && (forall|i: int|
                    0 <= i < n ==> #[trigger] inputs[i] != c) ==> #[trigger] next.parts[c]
                    == m.parts[c]
        }),
    decreases n,
{
    if n > 0 {
        lemma_latched(net, m, inputs, n - 1);
        let before = latched(net, m, inputs, n - 1);
        let next = latched(net, m, inputs, n);
        let c = inputs[n - 1];
        assert forall|i: int, p: int|
            0 <= i < n && 0 <= p < net.parts[inputs[i] as int].outputs.len() implies #[trigger] next.parts[inputs[i] as int].outs[p] by {
            if inputs[i] != c {
                assert(before.parts[inputs[i] as int].outs[p]);
            }
        }
        assert forall|i: int| 0 <= i < n implies (#[trigger] next.parts[inputs[i] as int]).outs.len()
            == net.parts[inputs[i] as int].outputs.len() by {
            if inputs[i] != c {
                assert(before.parts[inputs[i] as int].outs.len()
                    == net.parts[inputs[i] as int].outputs.len());
            }
        }
        assert forall|d: int|
            0 <= d < net.parts.len() && (forall|i: int|
                0 <= i < n ==> #[trigger] inputs[i] != d) implies #[trigger] next.parts[d]
            == m.parts[d] by {
            assert(inputs[n - 1] != d);
            assert(before.parts[d] == m.parts[d]);
        }
    }
}

proof fn lemma_first_bad_input(net: Netlist, inputs: Seq<u32>, from: int)
    requires
        0 <= from <= inputs.len(),
    ensures
        from <= first_bad_input(net, inputs, from) <= inputs.len(),
        first_bad_input(net, inputs, from) < inputs.len() ==> input_fault(
            net,
            inputs[first_bad_input(net, inputs, from)],
        ) is Some,
        first_bad_input(net, inputs, from) >= inputs.len() ==> forall|i: int|
            from <= i < inputs.len() ==> input_fault(net, #[trigger] inputs[i]) is None,
    decreases inputs.len() - from,
{
    if from < inputs.len() {
        lemma_first_bad_input(net, inputs, from + 1);
    }
}

/// In the state that a fixture's run starts from, every output pin of every user input that the fixture
/// lists is high. Every other component is as at power-on, and so are the links, the tick and the
/// pulses.
pub proof fn law_fixture_starts_with_its_inputs_high(fx: Fixture, c: int, p: int)
    requires
        fx.fault() is None,
        0 <= c < fx.board@.components.len(),
    ensures
        ({
            let net = fx.board@.netlist();
            let at_power_on = machine::start(net);
            let start = fx.start();
            let listed = exists|i: int|
                0 <= i < fx.input_triggers@.len() && #[trigger] fx.input_triggers@[i] == c;
            &&& listed ==> fx.board@.components[c].ty == CompType::UserInput
            &&& listed && 0 <= p < fx.board@.components[c].outputs.len() ==> start.parts[c].outs[p]
            &&& !listed ==> start.parts[c] == at_power_on.parts[c]
            &&& start.links == at_power_on.links
            &&& start.tick == at_power_on.tick
            &&& start.pulses == at_power_on.pulses
        }),
{
    let net = fx.board@.netlist();
    let inputs = fx.input_triggers@;
    lemma_first_bad_input(net, inputs, 0);
    assert forall|i: int| 0 <= i < inputs.len() implies #[trigger] inputs[i] < net.parts.len() by {
        assert(input_fault(net, inputs[i]) is None);
    }
    lemma_latched(net, machine::start(net), inputs, inputs.len() as int);
    if exists|i: int| 0 <= i < inputs.len() && #[trigger] inputs[i] == c {
        let i = choose|i: int| 0 <= i < inputs.len() && #[trigger] inputs[i] == c;
        assert(input_fault(net, inputs[i]) is None);
        assert(net.parts[c].ty == CompType::UserInput);
        if 0 <= p < net.parts[c].outputs.len() {
            assert(fx.start().parts[inputs[i] as int].outs[p]);
        }
    }
}

/// A difference that is reported is one: it names a pin or link that is listed, what is expected of it,
/// and what it shows instead.
pub open spec fn is_difference(expected: Expected, net: Netlist, m: Machine, d: Mismatch) -> bool {
    match d {
        Mismatch::Pin { comp, pin, expected: want, got } => {
            &&& comp < expected.components@.len()
            &&& pin < expected.components@[comp as int]@.len()
            &&& want == expected.components@[comp as int]@[pin as int]
            &&& got == (m.parts[comp as int].outs[pin as int]
                != net.parts[comp as int].neg_outputs[pin as int])
            &&& got != want
        },
        Mismatch::Link { link, expected: want, got } => {
            &&& link < expected.links@.len()
            &&& want == expected.links@[link as int]
            &&& got == m.links[link as int]
            &&& got != want
        },
    }
}

proof fn lemma_pins_differ(row: Seq<bool>, part: Part, st: PartState, c: int, n: int)
    requires
        0 <= c <= usize::MAX,
        0 <= n <= row.len() <= usize::MAX,
    ensures
        forall|i: int|
            0 <= i < pin_mismatches(row, part, st, c, n).len() ==> {
                let d = #[trigger] pin_mismatches(row, part, st, c, n)[i];
                &&& d matches Mismatch::Pin { comp, pin, expected, got } && comp == c && pin < n
                    && expected == row[pin as int] && got == (st.outs[pin as int]
                    != part.neg_outputs[pin as int]) && got != expected
            },
    decreases n,
{
    if n > 0 {
        lemma_pins_differ(row, part, st, c, n - 1);
    }
}

proof fn lemma_components_differ(expected: Expected, net: Netlist, m: Machine, n: int)
    requires
        0 <= n <= expected.components@.len(),
        n <= usize::MAX,
        forall|c: int|
            0 <= c < expected.components@.len() ==> (#[trigger] expected.components@[c])@.len()
                <= usize::MAX,
    ensures
        forall|i: int|
            0 <= i < component_mismatches(expected.components@, net, m, n).len() ==> is_difference(
                expected,
                net,
                m,
                #[trigger] component_mismatches(expected.components@, net, m, n)[i],
            ),
    decreases n,
{
    if n > 0 {
        let rows = expected.components@;
        lemma_components_differ(expected, net, m, n - 1);
        let before = component_mismatches(rows, net, m, n - 1);
        let more = pin_mismatches(
            rows[n - 1]@,
            net.parts[n - 1],
            m.parts[n - 1],
            n - 1,
            rows[n - 1]@.len() as int,
        );
        assert(rows[n - 1]@.len() <= usize::MAX);
        lemma_pins_differ(
            rows[n - 1]@,
            net.parts[n - 1],
            m.parts[n - 1],
            n - 1,
            rows[n - 1]@.len() as int,
        );
        let all = component_mismatches(rows, net, m, n);
        assert(all == before + more);
        assert forall|i: int| 0 <= i < all.len() implies is_difference(
            expected,
            net,
            m,
            #[trigger] all[i],
        ) by {
            if i < before.len() {
                assert(all[i] == before[i]);
            } else {
                assert(all[i] == more[i - before.len()]);
            }
        }
    }
}

proof fn lemma_links_differ(expected: Expected, net: Netlist, m: Machine, n: int)
    requires
        0 <= n <= expected.links@.len() <= usize::MAX,
    ensures
        forall|i: int|
            0 <= i < link_mismatches(expected.links@, m, n).len() ==> is_difference(
                expected,
                net,
                m,
                #[trigger] link_mismatches(expected.links@, m, n)[i],
            ),
    decreases n,
{
    if n > 0 {
        lemma_links_differ(expected, net, m, n - 1);
        let before = link_mismatches(expected.links@, m, n - 1);
        let all = link_mismatches(expected.links@, m, n);
        assert forall|i: int| 0 <= i < all.len() implies is_difference(
            expected,
            net,
            m,
            #[trigger] all[i],
        ) by {
            if i < before.len() {
                assert(all[i] == before[i]);
            }
        }
    }
}

/// Every difference that is reported names a pin or link that is listed, what is expected of it, and
/// what it shows instead.
pub proof fn law_reported_differences_are_real(expected: Expected, net: Netlist, m: Machine, i: int)
    requires
        expected.components@.len() <= usize::MAX,
        expected.links@.len() <= usize::MAX,
        forall|c: int|
            0 <= c < expected.components@.len() ==> (#[trigger] expected.components@[c])@.len()
                <= usize::MAX,
        0 <= i < expected.mismatches(net, m).len(),
    ensures
        is_difference(expected, net, m, expected.mismatches(net, m)[i]),
{
    let rows = expected.components@;
    lemma_components_differ(expected, net, m, rows.len() as int);
    lemma_links_differ(expected, net, m, expected.links@.len() as int);
    let a = component_mismatches(rows, net, m, rows.len() as int);
    let b = link_mismatches(expected.links@, m, expected.links@.len() as int);
    if i < a.len() {
        assert(expected.mismatches(net, m)[i] == a[i]);
    } else {
        assert(expected.mismatches(net, m)[i] == b[i - a.len()]);
    }
}

/// A fixture can be run when it sets a number of ticks or a time, lists no more links, components and
/// pins than its board has, has a board without fault, and latches nothing but user inputs.
pub proof fn law_runnable_fixtures(fx: Fixture)
    requires
        fx.board@.components.len() <= u32::MAX,
    ensures
        fx.fault() is None <==> {
            let b = fx.board@;
            &&& fx.ticks is Some || fx.ms is Some
            &&& fx.expected.links@.len() <= b.links
            &&& fx.expected.components@.len() <= b.components.len()
            &&& forall|i: int|
                0 <= i < fx.expected.components@.len() ==> (#[trigger] fx.expected.components@[i])@.len()
                    <= b.components[i].outputs.len()
            &&& b.fault() is None
            &&& forall|i: int|
                0 <= i < fx.input_triggers@.len() ==> (#[trigger] fx.input_triggers@[i])
                    < b.components.len() && b.components[fx.input_triggers@[i] as int].ty
                    == CompType::UserInput
        },
{
    let b = fx.board@;
    let net = b.netlist();
    let inputs = fx.input_triggers@;
    let long = fx.expected.first_long_row(b, 0);
    lemma_first_long_row(fx.expected, b, 0);
    if long < fx.expected.components@.len() {
        assert(fx.expected.components@[long]@.len() > b.components[long].outputs.len());
    }
    lemma_first_bad_input(net, inputs, 0);
    let bad = first_bad_input(net, inputs, 0);
    if bad < inputs.len() {
        let idx = inputs[bad];
        assert(input_fault(net, idx) is Some);
        assert(!(idx < b.components.len() && b.components[idx as int].ty == CompType::UserInput));
    } else {
        assert forall|i: int| 0 <= i < inputs.len() implies (#[trigger] inputs[i])
            < b.components.len() && b.components[inputs[i] as int].ty == CompType::UserInput by {
            assert(input_fault(net, inputs[i]) is None);
        }
    }
}

/// The first component that more pins are listed for than it has.
proof fn lemma_first_long_row(e: Expected, b: BoardModel, from: int)
    requires
        0 <= from <= e.components@.len(),
    ensures
        ({
            let at = e.first_long_row(b, from);
            &&& from <= at <= e.components@.len()
            &&& forall|i: int|
                from <= i < at ==> (#[trigger] e.components@[i])@.len()
                    <= b.components[i].outputs.len()
            &&& at < e.components@.len() ==> e.components@[at]@.len()
                > b.components[at].outputs.len()
        }),
    decreases e.components@.len() - from,
{
    if from < e.components@.len() && e.components@[from]@.len() <= b.components[from].outputs.len() {
        lemma_first_long_row(e, b, from + 1);
    }
}

/// A fixture runs for its ticks, or for as long as its time lasts if it sets none, on the threads it
/// sets or else on one.
pub proof fn law_fixture_defaults(fx: Fixture)
    ensures
        fx.ticks matches Some(n) ==> fx.most_ticks() == n,
        fx.ticks is None ==> fx.most_ticks() == 0xFFFF_FFFF_FFFF_FFFF,
        fx.threads matches Some(n) ==> fx.thread_count() == n,
        fx.threads is None ==> fx.thread_count() == 1,
        fx.threaded() <==> fx.thread_count() > 1,
{
}

/// A report says whether there are no differences. Its first line is the name with `: passed` or
/// `: FAILED` behind it; each difference has a line of its own, two spaces in.
pub proof fn law_report_lines(r: Report, name: Seq<char>, list: Seq<Mismatch>, i: int)
    requires
        r.on(name, list),
    ensures
        r.passed <==> list.len() == 0,
        r.lines@.len() == list.len() + 1,
        r.passed ==> r.lines@[0]@ == name + seq![':', ' ', 'p', 'a', 's', 's', 'e', 'd'],
        !r.passed ==> r.lines@[0]@ == name + seq![':', ' ', 'F', 'A', 'I', 'L', 'E', 'D'],
        0 <= i < list.len() ==> r.lines@[i + 1]@ == seq![' ', ' '] + list[i].text(),
{
    reveal_strlit(": passed");
    reveal_strlit(": FAILED");
    reveal_strlit("  ");
    assert(": passed"@ =~= seq![':', ' ', 'p', 'a', 's', 's', 'e', 'd']);
    assert(": FAILED"@ =~= seq![':', ' ', 'F', 'A', 'I', 'L', 'E', 'D']);
    assert("  "@ =~= seq![' ', ' ']);
}

} // verus!
