use vstd::prelude::*;
use crate::scheduler::SystemParamDescriptor;

verus! {

/// Keeps the scratchpad of one system between its runs.
pub struct StateHolder<S>(S);

impl<S> StateHolder<S> {
    /// The scratchpad's current value.
    pub closed spec fn view(&self) -> S {
        self.0
    }
}

/// The scratchpad of one system: made once, when the system is added, and
/// handed to that system alone at every run.
pub struct State<S> {
    state: StateHolder<S>,
}

impl<S> State<S> {
    /// The scratchpad's current value.
    pub closed spec fn view(&self) -> S {
        self.state@
    }

    /// What the scratchpad means to the scheduler: nothing that could alias.
    pub fn descriptor() -> (param: SystemParamDescriptor)
        ensures
            param == SystemParamDescriptor::State,
    {
        SystemParamDescriptor::State
    }

    /// A scratchpad that starts from `initial`.
    pub fn with(initial: S) -> (state: Self)
        ensures
            state@ == initial,
    {
        State { state: StateHolder(initial) }
    }

    /// The scratchpad, for reading.
    pub fn deref(&self) -> (value: &S)
        ensures
            *value == self@,
    {
        &self.state.0
    }

    /// The scratchpad, for writing.
    pub fn deref_mut(&mut self) -> (value: &mut S)
        ensures
            *value == old(self)@,
            final(self)@ == *final(value),
    {
        &mut self.state.0
    }
}

impl<S: Default> State<S> {
    /// A scratchpad that starts from the default value of its type.
    pub fn state() -> (state: Self)
        ensures
            call_ensures(S::default, (), state@),
    {
        State { state: StateHolder(S::default()) }
    }
}

} // verus!
