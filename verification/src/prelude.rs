//! Everything that a user of the engine needs, in one import.

pub use crate::activity::{ActivityRegistry, Execution};
pub use crate::combinators::{join2, join_all, select2, Either};
pub use crate::command::Command;
pub use crate::coroutine::{Coroutine, Observe, Poll, Workflow};
pub use crate::driver::{CompletionOrder, CrashPolicy, RunOutcome, TraceSink, Worker};
pub use crate::history::{Event, History, HistoryEvent, Outcome, Payload, SeqNo};
pub use crate::workflow::{ActivityFailure, ActivityFuture, TimerFuture, WfContext};
