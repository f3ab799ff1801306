//! # Activities: the only place where real work happens
//!
//! An activity is an ordinary function, as non-deterministic as it likes. The
//! engine guarantees that it is attempted *at least once* and that its result,
//! once recorded, is frozen into the history.
//!
//! At least once, not exactly once. If the worker dies after the activity's side
//! effect but before its result reaches the log, the activity runs again on
//! recovery. This is why activities must be idempotent.

use vstd::hash_map::StringHashMap;
use vstd::prelude::*;
use vstd::string::*;

use crate::coroutine::Observe;
use crate::history::Payload;
use crate::text::Text;

verus! {

/// One real invocation of an activity function. Recorded so that a caller can
/// see how often a side effect actually happened.
#[derive(Debug, PartialEq)]
pub struct Execution {
    pub activity_type: String,
    pub input: Payload,
}

/// The mathematical content of an [`Execution`].
pub struct ExecutionView {
    pub activity_type: Text,
    pub input: Text,
}

impl View for Execution {
    type V = ExecutionView;

    open spec fn view(&self) -> ExecutionView {
        ExecutionView { activity_type: self.activity_type@, input: self.input@ }
    }
}

impl Clone for Execution {
    fn clone(&self) -> (r: Execution)
        ensures
            r == *self,
    {
        Execution { activity_type: self.activity_type.clone(), input: self.input.clone() }
    }
}

/// The executions of `v`, each by its content.
pub open spec fn execution_views(v: Seq<Execution>) -> Seq<ExecutionView> {
    v.map_values(|e: Execution| e@)
}

/// The failure that stands for an activity nobody registered.
pub open spec fn unregistered(activity_type: Text) -> Text {
    "no activity registered for type `"@ + activity_type + "`"@
}

/// What an invocation may report: whatever the registered function returns for
/// the input, or failure where there is no such function.
pub open spec fn may_report<F: Fn(Payload) -> Result<Payload, String>>(
    fns: Map<Text, F>,
    activity_type: Text,
    input: Text,
    out: Result<Text, Text>,
) -> bool {
    if fns.contains_key(activity_type) {
        exists|i: Payload, o: Result<Payload, String>|
            {
                &&& #[trigger] call_ensures(fns[activity_type], (i,), o)
                &&& i@ == input
                &&& o.observed() == out
            }
    } else {
        out == Err::<Text, Text>(unregistered(activity_type))
    }
}

/// The activity functions of a worker, by type, and the log of what was really
/// executed. `F` is the type of the functions.
#[verifier::reject_recursive_types(F)]
pub struct ActivityRegistry<F: Fn(Payload) -> Result<Payload, String>> {
    fns: StringHashMap<F>,
    executions: Vec<Execution>,
}

/// The mathematical content of an [`ActivityRegistry`].
pub struct RegistryView<F> {
    pub fns: Map<Text, F>,
    pub executions: Seq<ExecutionView>,
}

impl<F> RegistryView<F> {
    /// After one more invocation.
    pub open spec fn executed(self, activity_type: Text, input: Text) -> RegistryView<F> {
        RegistryView {
            executions: self.executions.push(ExecutionView { activity_type, input }),
            ..self
        }
    }
}

impl<F: Fn(Payload) -> Result<Payload, String>> View for ActivityRegistry<F> {
    type V = RegistryView<F>;

    closed spec fn view(&self) -> RegistryView<F> {
        RegistryView { fns: self.fns@, executions: execution_views(self.executions@) }
    }
}

impl<F: Fn(Payload) -> Result<Payload, String>> Default for ActivityRegistry<F> {
    fn default() -> (r: ActivityRegistry<F>)
        ensures
            r@ == (RegistryView::<F> { fns: Map::empty(), executions: Seq::empty() }),
    {
        let log: Vec<Execution> = Vec::new();
        proof {
            assert(execution_views(log@) =~= Seq::empty());
        }
        ActivityRegistry::with_log(log)
    }
}

impl<F: Fn(Payload) -> Result<Payload, String>> ActivityRegistry<F> {
    #[verifier::type_invariant]
    spec fn inv(self) -> bool {
        forall|k: Text, i: Payload| #[trigger]
            self.fns@.contains_key(k) ==> #[trigger] call_requires(self.fns@[k], (i,))
    }

    /// A registry without activities and with an empty execution log.
    pub fn new() -> (r: ActivityRegistry<F>)
        ensures
            r@ == (RegistryView::<F> { fns: Map::empty(), executions: Seq::empty() }),
    {
        ActivityRegistry::default()
    }

    /// A registry that continues an existing execution log.
    ///
    /// Models a worker restart: the new process gets fresh functions and no
    /// memory of the old run, but the log of what was really executed carries
    /// over, as the outside world does.
    pub fn with_log(log: Vec<Execution>) -> (r: ActivityRegistry<F>)
        ensures
            r@ == (RegistryView::<F> { fns: Map::empty(), executions: execution_views(log@) }),
    {
        ActivityRegistry { fns: StringHashMap::new(), executions: log }
    }

    /// Registers `f` under `activity_type`, in place of an earlier one. Gives
    /// the registry back for the next call.
    pub fn register(&mut self, activity_type: &str, f: F) -> (r: &mut ActivityRegistry<F>)
        requires
            forall|i: Payload| #[trigger] call_requires(f, (i,)),
        ensures
            r@ == (RegistryView::<F> {
                fns: old(self)@.fns.insert(activity_type@, f),
                ..old(self)@
            }),
            *final(self) == *final(r),
    {
        proof {
            use_type_invariant(&*self);
        }
        let mut fns: StringHashMap<F> = StringHashMap::new();
        std::mem::swap(&mut fns, &mut self.fns);
        fns.insert(activity_type.to_owned(), f);
        self.fns = fns;
        self
    }

    /// The log of real side effects.
    pub fn executions(&self) -> (r: &Vec<Execution>)
        ensures
            execution_views(r@) == self@.executions,
    {
        &self.executions
    }

    /// How often activities of one type were really executed.
    pub fn execution_count(&self, activity_type: &str) -> (r: usize)
        ensures
            r == self@.executions.filter(
                |e: ExecutionView| e.activity_type == activity_type@,
            ).len(),
    {
        let ghost p = |e: ExecutionView| e.activity_type == activity_type@;
        let ghost all = self@.executions;
        let wanted = activity_type.to_owned();
        let mut n: usize = 0;
        let mut i: usize = 0;
        while i < self.executions.len()
            invariant
                i <= self.executions.len(),
                n <= i,
                all == self@.executions,
                wanted@ == activity_type@,
                p == (|e: ExecutionView| e.activity_type == activity_type@),
                n == all.take(i as int).filter(p).len(),
            decreases self.executions.len() - i,
        {
            proof {
                reveal(Seq::filter);
                assert(all.take(i + 1).drop_last() =~= all.take(i as int));
            }
            if self.executions[i].activity_type.eq(&wanted) {
                n = n + 1;
            }
            i = i + 1;
        }
        proof {
            assert(all.take(i as int) =~= all);
        }
        n
    }

    /// Runs an activity for real. The execution is logged before the function
    /// gets control.
    pub(crate) fn invoke(&mut self, activity_type: &str, input: &Payload) -> (out: Result<
        Payload,
        String,
    >)
        ensures
            final(self)@ == old(self)@.executed(activity_type@, input@),
            may_report(old(self)@.fns, activity_type@, input@, out.observed()),
    {
        proof {
            use_type_invariant(&*self);
        }
        let mut executions: Vec<Execution> = Vec::new();
        std::mem::swap(&mut executions, &mut self.executions);
        executions.push(
            Execution { activity_type: activity_type.to_owned(), input: input.clone() },
        );
        self.executions = executions;
        proof {
            assert(self@.executions =~= old(self)@.executed(activity_type@, input@).executions);
        }
        match self.fns.get(activity_type) {
            Some(f) => {
                let i = input.clone();
                proof {
                    assert(call_requires(self.fns@[activity_type@], (i,)));
                }
                f(i)
            },
            None => {
                let mut s = "no activity registered for type `".to_owned();
                s.append(activity_type);
                s.append("`");
                Err(s)
            },
        }
    }
}

} // verus!
