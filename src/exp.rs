use vstd::prelude::*;

verus! {

/// One transition: the state, the action taken in it, the reward received,
/// and the state reached, or `None` when the episode ended.
#[derive(Debug, Clone)]
pub struct Exp<S, A, R> {
    pub state: S,
    pub action: A,
    pub reward: R,
    pub next_state: Option<S>,
}

/// `b` is a field-by-field clone of `a`.
pub open spec fn exp_cloned<S: Clone, A: Clone, R: Clone>(a: Exp<S, A, R>, b: Exp<S, A, R>) -> bool {
    &&& cloned(a.state, b.state)
    &&& cloned(a.action, b.action)
    &&& cloned(a.reward, b.reward)
    &&& (a.next_state is Some <==> b.next_state is Some)
    &&& (a.next_state is Some ==> cloned(a.next_state->0, b.next_state->0))
}

impl<S: Clone, A: Clone, R: Clone> Exp<S, A, R> {
    /// A copy made by cloning each field.
    pub fn duplicate(&self) -> (r: Self)
        ensures
            exp_cloned(*self, r),
    {
        let next_state = match &self.next_state {
            Some(s) => Some(s.clone()),
            None => None,
        };
        Exp {
            state: self.state.clone(),
            action: self.action.clone(),
            reward: self.reward.clone(),
            next_state,
        }
    }
}

/// A batch of transitions stored column by column.
#[derive(Debug, Clone)]
pub struct ExpBatch<S, A, R> {
    pub states: Vec<S>,
    pub actions: Vec<A>,
    pub rewards: Vec<R>,
    pub next_states: Vec<Option<S>>,
}

impl<S, A, R> ExpBatch<S, A, R> {
    /// The columns have the length of `records`, and their `i`-th entries are
    /// the fields of `records[i]`.
    pub open spec fn columns_of(&self, records: Seq<Exp<S, A, R>>) -> bool {
        &&& self.states@.len() == records.len()
        &&& self.actions@.len() == records.len()
        &&& self.rewards@.len() == records.len()
        &&& self.next_states@.len() == records.len()
        &&& forall|i: int|
            0 <= i < records.len() ==> {
                &&& #[trigger] self.states@[i] == records[i].state
                &&& self.actions@[i] == records[i].action
                &&& self.rewards@[i] == records[i].reward
                &&& self.next_states@[i] == records[i].next_state
            }
    }

    /// Splits `records` into columns, keeping their order. `batch_size` is
    /// the room reserved in each column.
    pub fn from_iter(records: Vec<Exp<S, A, R>>, batch_size: usize) -> (r: Self)
        ensures
            r.columns_of(records@),
    {
        let ghost all = records@;
        let mut states: Vec<S> = Vec::with_capacity(batch_size);
        let mut actions: Vec<A> = Vec::with_capacity(batch_size);
        let mut rewards: Vec<R> = Vec::with_capacity(batch_size);
        let mut next_states: Vec<Option<S>> = Vec::with_capacity(batch_size);
        for e in it: records.into_iter()
            invariant
                it.seq() == all,
                states@.len() == it.index(),
                actions@.len() == it.index(),
                rewards@.len() == it.index(),
                next_states@.len() == it.index(),
                forall|i: int|
                    0 <= i < it.index() ==> {
                        &&& #[trigger] states@[i] == all[i].state
                        &&& actions@[i] == all[i].action
                        &&& rewards@[i] == all[i].reward
                        &&& next_states@[i] == all[i].next_state
                    },
        {
            states.push(e.state);
            actions.push(e.action);
            rewards.push(e.reward);
            next_states.push(e.next_state);
        }
        ExpBatch { states, actions, rewards, next_states }
    }
}

} // verus!
