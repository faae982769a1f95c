# relaxed_memory_concurrency

A spin lock, a ticket lock and an epoch-based garbage collector on loom's
atomics, verified with Verus, and the CLH queue lock.

- `src/primitives.rs`: the loom operations everything is built from.
- `src/spin_lock.rs`, `src/ticket_lock.rs`: the locks' non-blocking steps,
  and a state-machine model of each lock's protocol with a proof that the
  model is mutually exclusive (and, for the ticket lock, first come first
  served).  The proofs are about the models; no contract ties the code's
  runs to them.
- `src/clh_lock.rs`: a model of the CLH protocol and its proof of mutual
  exclusion.
- `src/ebr.rs`: the collector, its epoch arithmetic and retire lists with
  exact contracts, and a model of its protocol with a proof that, when an
  advance is one step, an object retired while a thread is pinned is not
  freed under it, together with a schedule outside that model where it is.
- `app/`: the blocking `lock` of each lock, which spins, and the CLH lock,
  whose nodes pass between threads through raw pointers.
- `tests/`: loom model checks and tests of the plain-value parts.
