# logigator_sim

A change-driven simulator for logic circuits, written in Rust and verified with Verus.

A board consists of links, each high or low, and components that read and drive them. Several
outputs on one link form a wired OR. A simulation advances in ticks: the links that are scheduled
take the wired OR of their drivers, the components that read a link that flipped are evaluated, and
what their outputs change is scheduled for the next tick. The work of a tick grows with what changes,
not with the size of the board.

## Layout

- `src/`: the verified library.
  - `netlist`, `behavior`, `machine`: the mathematical model. A board description, what is wrong with
    it, and its compiled form; what each component type does; what a tick does to a simulation.
  - `board`, `bitset`, `scratch`, `state`, `queue`, `reduce`, `simd`, `components`: the engine's data
    and kernels, proved against the model.
  - `sim`: the simulation object: construction, ticks, runs on one or several threads, snapshots and
    readouts.
  - `codec`: the `.lgb` binary board format. `text`: numbers and messages.
  - `session`, `binding`: a simulation served command by command, and what language bindings share.
  - `cli`: what the command line tool computes.
  - `laws`, `settle`: what holds of every simulation.
  - `clock`, `pool`: the outside world, namely the wall clock and a pool of worker threads.
- `tests/`: tests of the compiled library.
- `app/`: the `sim` command line tool and the Node.js and WebAssembly surfaces around the library.

## What is proved

Every function states what it returns or changes, over the model. `Simulation::tick` and the runs, on
any number of threads, do exactly what the model's tick does, as often as asked. Beyond that:

- a link shows the wired OR of the outputs of the tick before, and changes only when it is scheduled;
- evaluating only the readers of flipped links keeps every combinational output up to date;
- the order in which components are evaluated within a tick, and how often, makes no difference;
- a board of gates without loops comes to rest, in a state that its inputs determine, and there a
  negated pin does what a NOT in its place does;
- a reader who applies delta snapshots has the link values of the simulation;
- a timed run goes on while the clock shows time left at its looks and stops at the first look that
  shows none; otherwise a run stops early only when, in a session, the flag shows a request to stop;
- a board written in the binary format reads back as it was, a board that was read is written back
  byte for byte but for what the format leaves open, and a board cut short is rejected as such. The
  format has no field for negated pins, so they are not written.

What is trusted is in `clock` and `pool`: reading the time, building a pool of threads, and mapping
stretches of a list on it in order.

## The command line tool

```
sim run    <board> [--ticks N] [--ms N] [--threads N] [--format json|bin] [--dump <out>] [--dump-format json|bin]
sim trace  <board> --ticks N [--out <file>]
sim verify <fixture>...
sim bench  <board> [--ticks N] [--ms N] [--repeat N]
```

Exit codes: 0 for success, 1 for a mismatch found by `verify`, 2 for anything else.
