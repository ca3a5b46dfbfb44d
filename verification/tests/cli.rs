//! What the command line tool computes.

use logigator_sim::board::{BoardBuilder, BoardDescriptor};
use logigator_sim::cli::bench::group;
use logigator_sim::cli::load::{
    apply_triggers, detect, drive, label, prepare, Format, Loaded, Trigger,
};
use logigator_sim::cli::run::{nanos, powered, run, state_dump, DumpFormat, RunArgs};
use logigator_sim::cli::trace::{choose_ticks, frame, trace, TraceArgs};
use logigator_sim::cli::verify::{
    compare, exit_code, report, verify_one, Expected, Fixture, Mismatch,
};
use logigator_sim::codec::encode_board;
use logigator_sim::sim::Simulation;
use logigator_sim::types::CompType;

/// A user input with a NOT behind it.
fn board() -> BoardDescriptor {
    let mut b = BoardBuilder::new(2);
    b.component(CompType::UserInput, &[], &[0], &[]);
    b.component(CompType::Not, &[0], &[1], &[]);
    b.finish()
}

fn trigger(tick: u64, comp: u32, event: &str, state: &[bool]) -> Trigger {
    Trigger { tick, comp, event: event.to_string(), state: state.to_vec() }
}

fn loaded(ticks: Option<u64>, triggers: Vec<Trigger>) -> Loaded {
    Loaded::fixture("stem".to_string(), None, board(), ticks, triggers)
}

fn run_args(ticks: Option<u64>, ms: Option<u64>, threads: usize) -> RunArgs {
    RunArgs { ticks, ms, threads, format: None, dump_format: DumpFormat::Json }
}

#[test]
fn numbers_are_grouped_in_threes() {
    assert_eq!(group(0), "0");
    assert_eq!(group(999), "999");
    assert_eq!(group(1000), "1_000");
    assert_eq!(group(1_000_000), "1_000_000");
    assert_eq!(group(12_345_006), "12_345_006");
    assert_eq!(group(u64::MAX), "18_446_744_073_709_551_615");
}

#[test]
fn the_extension_tells_the_format() {
    assert_eq!(detect(Some("lgb")), Format::Bin);
    assert_eq!(detect(Some("LgB")), Format::Bin);
    for other in ["json", "lg", "lgbx", "lgc", ""] {
        assert_eq!(detect(Some(other)), Format::Json);
    }
    assert_eq!(detect(None), Format::Json);
}

#[test]
fn fixtures_may_bring_a_name() {
    assert_eq!(loaded(None, vec![]).name, "stem");
    let named = Loaded::fixture("s".to_string(), Some("n".to_string()), board(), Some(3), vec![]);
    assert_eq!((named.name.as_str(), named.ticks), ("n", Some(3)));
    let plain = Loaded::board("s".to_string(), board());
    assert_eq!((plain.name.as_str(), plain.ticks, plain.triggers.len()), ("s", None, 0));
}

#[test]
fn binary_boards_load() {
    let bytes = encode_board(&board());
    let l = Loaded::binary("dir/b.lgb", "b".to_string(), &bytes).ok().unwrap();
    assert_eq!(l.desc, board());
    assert_eq!(l.name, "b");
    let why = Loaded::binary("dir/b.lgb", "b".to_string(), &bytes[..3]).err().unwrap();
    assert_eq!(
        why,
        "dir/b.lgb: malformed .lgb binary: truncated: need 4 bytes at offset 0 but only 3 remain"
    );
    assert_eq!(label("a", "b"), "a: b");
}

#[test]
fn triggers_are_applied_at_their_tick() {
    let mut sim = Simulation::from_descriptor(&board()).unwrap();
    let ts = [
        trigger(0, 0, "cont", &[true]),
        trigger(1, 0, "cont", &[false]),
        trigger(1, 0, "pulse", &[true]),
    ];
    apply_triggers(&mut sim, &ts, 0).unwrap();
    assert_eq!(sim.output_bytes(), [1, 1]);
    apply_triggers(&mut sim, &ts, 1).unwrap();
    assert_eq!(sim.output_bytes(), [0, 1]);
    sim.tick();
    assert_eq!(sim.output_bytes()[0], 1);

    let why = apply_triggers(&mut sim, &[trigger(5, 0, "hold", &[])], 5).unwrap_err();
    assert_eq!(why, "unknown trigger event 'hold' (want 'cont' or 'pulse')");
    let why = apply_triggers(&mut sim, &[trigger(5, 1, "cont", &[])], 5).unwrap_err();
    assert_eq!(why, "trigger_input(comp 1): component 1 is not a user-input component");
    assert!(apply_triggers(&mut sim, &[trigger(5, 1, "cont", &[])], 6).is_ok());
}

#[test]
fn traces_show_every_tick() {
    let l = loaded(Some(4), vec![trigger(1, 0, "cont", &[true])]);
    let t = trace(&l, &TraceArgs { ticks: None, format: None }).ok().unwrap();
    assert_eq!((t.name.as_str(), t.ticks), ("stem", 4));
    let shown: Vec<(u64, &str, String)> = t
        .trace
        .iter()
        .map(|f| (f.tick, f.links.as_str(), f.outputs.join(" ")))
        .collect();
    assert_eq!(
        shown,
        [
            (0, "00", "0 1".to_string()),
            (1, "01", "1 1".to_string()),
            (2, "01", "1 1".to_string()),
            (3, "11", "1 0".to_string()),
            (4, "10", "1 0".to_string()),
        ]
    );
    // The command line has the last word on the ticks.
    let t = trace(&l, &TraceArgs { ticks: Some(1), format: None }).ok().unwrap();
    assert_eq!(t.trace.len(), 2);
}

#[test]
fn traces_need_ticks_and_a_sound_board() {
    let why = trace(&loaded(None, vec![]), &TraceArgs { ticks: None, format: None });
    assert_eq!(
        why.err().unwrap(),
        "specify --ticks N (the board carries no fixture default)"
    );
    let mut l = loaded(Some(1), vec![]);
    l.desc.components[1].inputs[0] = 9;
    let why = trace(&l, &TraceArgs { ticks: None, format: None });
    assert_eq!(
        why.err().unwrap(),
        "stem: component 1: link id 9 out of range (link_count=2)"
    );
    let l = loaded(Some(9), vec![trigger(3, 1, "cont", &[])]);
    assert!(trace(&l, &TraceArgs { ticks: Some(2), format: None }).is_ok());
    assert!(trace(&l, &TraceArgs { ticks: Some(3), format: None }).is_err());
    assert_eq!(choose_ticks(None, Some(1)), Some(1));
    assert_eq!(choose_ticks(Some(2), Some(1)), Some(2));
}

#[test]
fn driving_stops_at_its_bounds() {
    let desc = board();
    let mut sim = Simulation::from_descriptor(&desc).unwrap();
    let d = drive(&mut sim, &desc, None, None, &[], true).ok().unwrap();
    assert_eq!((d.ticks, d.frames.len()), (0, 1));
    let d = drive(&mut sim, &desc, Some(7), None, &[], false).ok().unwrap();
    assert_eq!((d.ticks, d.frames.len(), sim.tick_count()), (7, 0, 7));
    let d = drive(&mut sim, &desc, None, Some(0), &[], false).ok().unwrap();
    assert_eq!((d.ticks, sim.tick_count()), (0, 7));
    assert_eq!(frame(&sim, &desc, 7).links, "01");
}

#[test]
fn runs_need_a_bound() {
    let why = run(&loaded(None, vec![]), &run_args(None, None, 1));
    assert_eq!(
        why.err().unwrap(),
        "specify a run bound: --ticks N and/or --ms N (the engine has no quiescence stop)"
    );
    assert_eq!(nanos(Some(3)), Some(3_000_000));
    assert_eq!(nanos(None), None);
}

#[test]
fn runs_go_to_threads_unless_triggers_come_late() {
    let early = loaded(Some(6), vec![trigger(0, 0, "cont", &[true])]);
    let late = loaded(Some(6), vec![trigger(0, 0, "cont", &[true]), trigger(3, 0, "cont", &[false])]);
    for threads in [1usize, 3] {
        let ran = run(&early, &run_args(None, None, threads)).ok().unwrap();
        assert_eq!((ran.ticks, ran.threads_ignored), (6, false));
        assert!(ran.sim.link(0) && !ran.sim.link(1));
        assert_eq!(powered(&ran.sim), 1);
        let ran = run(&late, &run_args(None, None, threads)).ok().unwrap();
        assert_eq!((ran.ticks, ran.threads_ignored), (6, threads > 1));
        assert!(!ran.sim.link(0) && ran.sim.link(1));
    }
    let bad = loaded(Some(6), vec![trigger(0, 1, "cont", &[true])]);
    assert!(run(&bad, &run_args(None, None, 2)).is_err());
}

#[test]
fn dumps_list_links_and_pins() {
    let l = loaded(Some(3), vec![]);
    let ran = run(&l, &run_args(None, None, 1)).ok().unwrap();
    let dump = state_dump(&ran.sim, &l.desc);
    assert_eq!(dump.tick, 3);
    assert_eq!(dump.links, [false, true]);
    assert_eq!(dump.components, [vec![false], vec![true]]);
}

#[test]
fn prepared_boards_have_their_first_triggers() {
    let sim = prepare(&loaded(None, vec![trigger(0, 0, "cont", &[true]), trigger(2, 9, "x", &[])]));
    assert_eq!(sim.ok().unwrap().output_bytes(), [1, 1]);
    assert!(prepare(&loaded(None, vec![trigger(0, 9, "cont", &[])])).is_err());
}

fn fixture(links: &[bool], components: &[&[bool]]) -> Fixture {
    Fixture {
        ticks: Some(5),
        ms: None,
        threads: None,
        input_triggers: vec![0],
        expected: Expected {
            links: links.to_vec(),
            components: components.iter().map(|r| r.to_vec()).collect(),
        },
        board: board(),
    }
}

#[test]
fn fixtures_are_verified() {
    let good = fixture(&[true, false], &[&[true], &[false]]);
    assert_eq!(verify_one(&good).unwrap(), []);
    // What is not listed is not compared.
    assert_eq!(verify_one(&fixture(&[true], &[])).unwrap(), []);

    let bad = fixture(&[false, false], &[&[true], &[true]]);
    let list = verify_one(&bad).unwrap();
    assert_eq!(
        list,
        [
            Mismatch::Pin { comp: 1, pin: 0, expected: true, got: false },
            Mismatch::Link { link: 0, expected: false, got: true },
        ]
    );
    let r = report("fx.json", &list);
    assert!(!r.passed);
    assert_eq!(
        r.lines,
        [
            "fx.json: FAILED",
            "  component[1][0]: expected true, got false",
            "  link[0]: expected false, got true",
        ]
    );
    let r = report("fx.json", &[]);
    assert!(r.passed);
    assert_eq!(r.lines, ["fx.json: passed"]);
}

#[test]
fn fixtures_run_on_threads_too() {
    let mut fx = fixture(&[true, false], &[]);
    fx.threads = Some(3);
    assert_eq!(verify_one(&fx).unwrap(), []);
}

#[test]
fn unusable_fixtures_are_errors() {
    let why = |fx: &Fixture| verify_one(fx).unwrap_err();
    let mut fx = fixture(&[], &[]);
    fx.ticks = None;
    assert_eq!(
        why(&fx),
        "fixture sets neither `ticks` nor `ms` (the run would never terminate)"
    );
    assert_eq!(
        why(&fixture(&[], &[&[], &[], &[]])),
        "expected lists 3 components, board has 2"
    );
    assert_eq!(why(&fixture(&[true; 3], &[])), "expected lists 3 links, board has 2");
    assert_eq!(
        why(&fixture(&[], &[&[], &[true, true]])),
        "expected component[1] lists 2 pins, board component drives 1"
    );
    let mut fx = fixture(&[], &[]);
    fx.board.components[1].inputs[0] = 4;
    assert_eq!(why(&fx), "component 1: link id 4 out of range (link_count=2)");
    let mut fx = fixture(&[], &[]);
    fx.input_triggers = vec![0, 2];
    assert_eq!(why(&fx), "inputTriggers index 2 out of range");
    fx.input_triggers = vec![1];
    assert_eq!(
        why(&fx),
        "trigger_input(comp 1): component 1 is not a user-input component"
    );
}

#[test]
fn comparing_finds_what_differs() {
    let sim = Simulation::from_descriptor(&board()).unwrap();
    let same = Expected { links: vec![false, false], components: vec![vec![false], vec![true]] };
    assert!(compare(&sim, &same).is_empty());
    let other = Expected { links: vec![false, true], components: vec![] };
    assert_eq!(
        compare(&sim, &other),
        [Mismatch::Link { link: 1, expected: true, got: false }]
    );
}

#[test]
fn one_failure_sets_the_exit_code() {
    assert_eq!(exit_code(&[]), 0);
    assert_eq!(exit_code(&[true, true]), 0);
    assert_eq!(exit_code(&[true, false, true]), 1);
}
