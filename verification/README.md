# mini-temporal

A durable execution engine in verified Rust. A workflow is a pure function of its
event history: the engine runs the workflow again from the top, feeds it the
recorded results one at a time in log order, checks the commands it issues against
the recorded ones, writes the new ones down, and lets the world answer them.

- `src/` is the library, verified with Verus.
  - `history`, `command`, `activity`, `workflow`, `coroutine`, `combinators`,
    `replay` and `driver` are the engine. Each function states what it does over
    mathematical views of the data.
  - `engine` holds the transitions of the driver as spec functions.
  - `laws` states and proves what holds of the engine as a whole: replay is a
    function of the history, every scheduled activity is attempted, recorded ones
    never run again, recovery ends as a clean run does, code that stays the same
    throughout an execution logs every line once and never diverges, divergence does
    no damage, a closed log is final.
  - `saga` is an example workflow with proofs that those laws apply to it.
- `tests/` runs the library.
- `app/` lets async functions be workflows and holds a command-line demo.

User code meets the engine through two traits. `Coroutine` is code that suspends;
`Workflow` builds one for every pass. Each comes with a relation that says what one
call may do, which an implementation chooses and proves of itself. Code that leaves
the relation at its default promises nothing, and the engine's contracts then
promise nothing that depends on it. `TraceSink`, which takes the trace lines of a
worker as they come, has such a relation too.
