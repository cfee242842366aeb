# Actinium-Actor

A lightweight actor framework. Actors process messages one at a time;
workers schedule actors fairly; supervisors restart failing children;
state-machine actors cycle through a fixed sequence of states.

## Layout

- `src/` — the framework's logic, verified with Verus:
  - `actor.rs`: `ActorId` (with its `actor-<n>` rendering) and the `Actor`,
    `Handler`, `Message` traits.
  - `context.rs`: `Context` (actor id, stop request, runtime/worker link) and
    `Recipient`, what `Context::send`/`notify` deliver through.
  - `scheduler.rs`: per-actor FIFO mailboxes and the round-robin ready queue,
    a worker's turn (`take_turn`, `finish_turn`), and the fairness results
    (round-robin order, one message per actor per turn, no starvation,
    delivery, stopped or removed actors never served again).
  - `spawner.rs`: fresh actor ids, round-robin worker choice, per-worker
    actor tables.
  - `stateful.rs`: `StateMachine` over a `StateHandler`, and the cycle law.
  - `supervisor.rs`: `Supervisor` with one-for-one and all-for-one restarts
    (each child restarted by the factory that made it, the factories run in
    turn on the caller's context), the restart-count bound and the restart
    limits of both strategies.
  - `addr.rs`: `SendError`.
- `tests/` — tests of the library.
- `app/` — the runtimes built on the library: `Addr`, `ActorSystem`,
  `Runtime`, `TestKit`/`TestProbe`, and the demo program. They move
  type-erased closures (`dyn FnOnce`, `dyn Any`) across threads and channels.
