//! # Coroutines: code that suspends
//!
//! A workflow is a coroutine. Polling it runs it until it is done or until it
//! waits for something that the history does not hold yet. There is no waker:
//! a coroutine that waits is simply polled again later, or thrown away and
//! rebuilt by running the workflow from the top.
//!
//! What a coroutine does is up to the code behind it. The contract of
//! [`Coroutine::poll`] therefore names a relation, [`Coroutine::polled`], that
//! every implementation chooses for itself and proves of its own code.

use vstd::prelude::*;

use crate::text::Text;
use crate::workflow::{CtxView, WfContext};

verus! {

/// A value with a mathematical content, which is all that contracts see of it.
pub trait Observe {
    /// The content's type.
    type Obs;

    /// The content.
    spec fn observed(&self) -> Self::Obs;
}

impl Observe for () {
    type Obs = ();

    open spec fn observed(&self) -> () {
        ()
    }
}

impl Observe for String {
    type Obs = Text;

    open spec fn observed(&self) -> Text {
        self@
    }
}

impl<A: Observe, B: Observe> Observe for Result<A, B> {
    type Obs = Result<A::Obs, B::Obs>;

    open spec fn observed(&self) -> Result<A::Obs, B::Obs> {
        match self {
            Ok(a) => Ok(a.observed()),
            Err(b) => Err(b.observed()),
        }
    }
}

impl<A: Observe, B: Observe> Observe for (A, B) {
    type Obs = (A::Obs, B::Obs);

    open spec fn observed(&self) -> (A::Obs, B::Obs) {
        (self.0.observed(), self.1.observed())
    }
}

impl<A: Observe> Observe for Option<A> {
    type Obs = Option<A::Obs>;

    open spec fn observed(&self) -> Option<A::Obs> {
        match self {
            Some(a) => Some(a.observed()),
            None => None,
        }
    }
}

impl<A: Observe> Observe for Vec<A> {
    type Obs = Seq<A::Obs>;

    open spec fn observed(&self) -> Seq<A::Obs> {
        self@.map_values(|a: A| a.observed())
    }
}

/// What polling a coroutine gives: its output, or word that it waits.
#[derive(Debug, PartialEq, Eq)]
pub enum Poll<O> {
    Ready(O),
    Pending,
}

impl<O: Observe> Observe for Poll<O> {
    type Obs = Poll<O::Obs>;

    open spec fn observed(&self) -> Poll<O::Obs> {
        match self {
            Poll::Ready(o) => Poll::Ready(o.observed()),
            Poll::Pending => Poll::Pending,
        }
    }
}

impl<O> Poll<O> {
    /// Is there an output?
    pub fn is_ready(&self) -> (r: bool)
        ensures
            r == (self is Ready),
    {
        match self {
            Poll::Ready(_) => true,
            Poll::Pending => false,
        }
    }

    /// Does the coroutine wait?
    pub fn is_pending(&self) -> (r: bool)
        ensures
            r == (self is Pending),
    {
        !self.is_ready()
    }
}

/// Code that runs in steps and suspends in between. `T` is the type of the
/// detached tasks that the workflow may spawn, `O` what the coroutine returns.
pub trait Coroutine<T: Observe, O: Observe>: Observe {
    /// What one poll may do: a coroutine in state `before` and a context `ctx`
    /// become `after` and `ctx_after`, and the poll gives `out`.
    open spec fn polled(
        before: Self::Obs,
        ctx: CtxView<T::Obs>,
        after: Self::Obs,
        ctx_after: CtxView<T::Obs>,
        out: Poll<O::Obs>,
    ) -> bool {
        true
    }

    /// Runs until the coroutine is done or has to wait.
    fn poll(&mut self, ctx: &mut WfContext<T>) -> (out: Poll<O>)
        ensures
            Self::polled(
                old(self).observed(),
                old(ctx)@,
                final(self).observed(),
                final(ctx)@,
                out.observed(),
            ),
    ;
}

/// The task type of a workflow that spawns no tasks. One that is polled all the
/// same is done at once.
pub struct NoTask;

impl Observe for NoTask {
    type Obs = ();

    open spec fn observed(&self) -> () {
        ()
    }
}

impl<T: Observe> Coroutine<T, ()> for NoTask {
    open spec fn polled(
        before: (),
        ctx: CtxView<T::Obs>,
        after: (),
        ctx_after: CtxView<T::Obs>,
        out: Poll<()>,
    ) -> bool {
        ctx_after == ctx && out == Poll::Ready(())
    }

    fn poll(&mut self, ctx: &mut WfContext<T>) -> (out: Poll<()>) {
        Poll::Ready(())
    }
}

/// A workflow function: given a fresh context, it gives the root coroutine. The
/// function may already use the context.
pub trait Workflow<T: Observe, R: Observe> {
    /// What one start may do: the context `ctx` becomes `ctx_after`, and `root`
    /// is the coroutine.
    open spec fn started(
        &self,
        ctx: CtxView<T::Obs>,
        root: R::Obs,
        ctx_after: CtxView<T::Obs>,
    ) -> bool {
        true
    }

    /// Builds the root coroutine of one pass.
    fn start(&self, ctx: &mut WfContext<T>) -> (root: R)
        ensures
            self.started(old(ctx)@, root.observed(), final(ctx)@),
    ;
}

} // verus!
