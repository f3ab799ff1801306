//! # mini-temporal
//!
//! A durable execution engine. One idea carries it:
//!
//! > **A workflow is a pure function of its event history.**
//! >
//! > `commands = replay(workflow, history)`
//!
//! Recovery is not a feature on top. Recovery *is* the execution model: the
//! engine runs the workflow again from the top and feeds it the recorded history,
//! so that every step that already has a result returns that result instead of
//! doing the work again. When the replay catches up with the end of the history,
//! execution goes live and new commands come out.
//!
//! ## Where to read
//!
//! 1. [`workflow`] and [`coroutine`]: how workflow code suspends without ever
//!    being woken.
//! 2. [`replay`] and [`driver`]: the replay, verify, persist, advance loop.
//! 3. [`history`]: the only durable state in the system.
//! 4. [`command`]: why intents and facts are different types.
//! 5. [`engine`]: what one step of the loop does, as mathematics.
//! 6. [`laws`]: what follows for the engine as a whole.
//! 7. [`saga`]: a workflow from end to end.

pub mod activity;
pub mod combinators;
pub mod command;
pub mod coroutine;
pub mod driver;
pub mod engine;
pub mod history;
pub mod laws;
pub mod prelude;
pub mod replay;
pub mod saga;
pub mod text;
pub mod workflow;
