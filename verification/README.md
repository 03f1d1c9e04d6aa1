# loom

A permutation tester for concurrent code. A model is run again and again, each
time on another schedule and with other values for its relaxed loads, as long as
its tree of branches has alternatives that are open.

What decides is the library, and all of it is verified with
[Verus](https://github.com/verus-lang/verus):

- `src/rt`: one execution. Version vectors, the store histories of atomic cells
  with their modification order, fences and the order of sequentially
  consistent operations; threads, mutexes and condition variables; and the path
  through the tree of branches, with dynamic partial-order reduction, sleep
  sets, preemption bounds, and the splitting of a path among workers.
- `src/sync`: typed atomics, their sub-word lanes, and condition variables.
- `src/model`: the settings of a run, the serial walk's decisions, and what the
  workers of a sharded run share.

What is proved is what each operation does, and laws that span several:

- `rt/laws.rs`: a race is explored both ways, only a standstill is a deadlock,
  nobody sleeps through a conflict. `rt/path/laws.rs`: no open alternative is
  dropped.
- `rt/atomic/laws.rs`: coherence, and that nothing comes between the halves of a
  read-modify-write. `rt/atomic/snapshot.rs`: a load returns one snapshot of a
  cell, and a lane load never falls behind what its thread has seen.
- `rt/values.rs`: what an operation writes. `rt/independence.rs`: operations that
  do not conflict give the same values in either order.
- `rt/history.rs` and `rt/timeout.rs`: whole executions. A condition variable
  wakes itself once, and a timed wait that nobody notifies ends by its timeout.
- `rt/deference.rs`: an execution is cut short only where it defers to a lower
  sibling, and deferring comes to an end. Where operations that do not conflict
  commute, a walk that tries every schedule loses no behavior by it.
- `rt/path/crew.rs`, `shards.rs` and `search.rs`: a search makes every run once,
  however it is divided among workers. `rt/path/faithful.rs`: workers that record
  the races of a deterministic program make the runs of a serial walk, no more
  and no fewer, and replay what the program offers.

That the memory model is that of C11, and that the reduced walk meets every
behavior of a program, is not among them.

`app` runs models: coroutines for their threads, OS threads for the workers,
files and the environment.

An execution that cannot go on ends with a `Fault`. Nothing is said of the
state that a fault leaves behind, since the execution is abandoned, but for a
write outside of what was read, which is refused before it changes anything.
