//! A deterministic finite automaton over integer states and letters.
//!
//! With `states` states and `alphabets` letters, the states are
//! `0 .. states` and the letters `0 .. alphabets`; the transition from state
//! `q` on letter `a` is stored at `transition_function[q][a]`.
use vstd::prelude::*;

use std::collections::HashSet;

verus! {

broadcast use vstd::std_specs::hash::group_hash_axioms;

pub struct Dfa {
    states: u64,
    alphabets: u64,
    transition_function: Vec<Vec<u64>>,
    initial_state: u64,
    accept_states: HashSet<u64>,
}

/// The transition table has one row per state and one column per letter.
pub open spec fn table_shape_ok(states: u64, alphabets: u64, table: Seq<Seq<u64>>) -> bool {
    &&& table.len() == states
    &&& forall|q: int| 0 <= q < table.len() ==> (#[trigger] table[q]).len() == alphabets
}

/// The state reached from `q` by reading `input` with transition table
/// `table`, or `None` when the run passes through a state outside
/// `0 .. table.len()`.
pub open spec fn run(table: Seq<Seq<u64>>, q: u64, input: Seq<u64>) -> Option<u64>
    decreases input.len(),
{
    if input.len() == 0 {
        Some(q)
    } else if q < table.len() && input[0] < table[q as int].len() {
        run(table, table[q as int][input[0] as int], input.drop_first())
    } else {
        None
    }
}

/// Every letter of `input` is below `alphabets`.
pub open spec fn letters_ok(alphabets: u64, input: Seq<u64>) -> bool {
    forall|k: int| 0 <= k < input.len() ==> #[trigger] input[k] < alphabets
}

impl Dfa {
    /// The number of states.
    pub closed spec fn states_spec(&self) -> u64 {
        self.states
    }

    /// The number of letters.
    pub closed spec fn alphabets_spec(&self) -> u64 {
        self.alphabets
    }

    /// The transition table, one row per state.
    pub closed spec fn table(&self) -> Seq<Seq<u64>> {
        Seq::new(self.transition_function@.len(), |q: int| self.transition_function@[q]@)
    }

    /// The initial state.
    pub closed spec fn initial_spec(&self) -> u64 {
        self.initial_state
    }

    /// The accepting states.
    pub closed spec fn accepting(&self) -> Set<u64> {
        self.accept_states@
    }

    /// The table has one row per state and one column per letter.
    pub closed spec fn wf(&self) -> bool {
        table_shape_ok(self.states, self.alphabets, self.table())
    }

    /// What `execute` returns on `input`: an error when a letter is out of
    /// range or the run leaves the states, else whether it ends accepting.
    pub open spec fn outcome(&self, input: Seq<u64>) -> Result<bool, ()> {
        if !letters_ok(self.alphabets_spec(), input) {
            Err(())
        } else {
            match run(self.table(), self.initial_spec(), input) {
                Some(q) => Ok(self.accepting().contains(q)),
                None => Err(()),
            }
        }
    }

    /// An automaton, if the transition table has one row of `alphabets`
    /// entries for each of the `states` states.
    pub fn new(
        states: u64,
        alphabets: u64,
        transition_function: Vec<Vec<u64>>,
        initial_state: u64,
        accept_states: Vec<u64>,
    ) -> (r: Result<Self, ()>)
        ensures
            r is Ok <==> table_shape_ok(
                states,
                alphabets,
                Seq::new(transition_function@.len(), |q: int| transition_function@[q]@),
            ),
            r matches Ok(d) ==> {
                &&& d.wf()
                &&& d.states_spec() == states
                &&& d.alphabets_spec() == alphabets
                &&& d.table() == Seq::new(transition_function@.len(), |q: int| transition_function@[q]@)
                &&& d.initial_spec() == initial_state
                &&& d.accepting() == accept_states@.to_set()
            },
    {
        let ghost table = Seq::new(transition_function@.len(), |q: int| transition_function@[q]@);
        assert(table.len() == transition_function@.len());
        if transition_function.len() as u64 != states {
            return Err(());
        }
        let mut q: usize = 0;
        while q < transition_function.len()
            invariant
                table == Seq::new(transition_function@.len(), |q: int| transition_function@[q]@),
                q <= transition_function@.len(),
                forall|j: int| 0 <= j < q ==> (#[trigger] table[j]).len() == alphabets,
            decreases transition_function@.len() - q,
        {
            assert(table[q as int] == transition_function@[q as int]@);
            if transition_function[q].len() as u64 != alphabets {
                return Err(());
            }
            q = q + 1;
        }
        let mut accept: HashSet<u64> = HashSet::new();
        let mut k: usize = 0;
        while k < accept_states.len()
            invariant
                k <= accept_states@.len(),
                accept@ == accept_states@.take(k as int).to_set(),
            decreases accept_states@.len() - k,
        {
            accept.insert(accept_states[k]);
            proof {
                assert(accept_states@.take(k + 1 as int) =~= accept_states@.take(k as int).push(accept_states@[k as int]));
                accept_states@.take(k as int).lemma_push_to_set_commute(accept_states@[k as int]);
            }
            k = k + 1;
        }
        assert(accept_states@.take(k as int) =~= accept_states@);
        let d = Dfa { states, alphabets, transition_function, initial_state, accept_states: accept };
        assert(d.table() =~= table);
        Ok(d)
    }

    /// The state reached from `current` on letter `alphabet`, if both are in
    /// range.
    fn transition(&self, current: u64, alphabet: u64) -> (r: Result<u64, ()>)
        requires
            self.wf(),
        ensures
            r == (if current < self.states && alphabet < self.alphabets {
                Ok::<u64, ()>(self.table()[current as int][alphabet as int])
            } else {
                Err::<u64, ()>(())
            }),
    {
        if current < self.states && alphabet < self.alphabets {
            let ghost t = self.table();
            assert(t[current as int] == self.transition_function@[current as int]@);
            assert(t[current as int].len() == self.alphabets);
            let rows = self.transition_function.len();
            assert(current < rows);
            let row = &self.transition_function[current as usize];
            let cols = row.len();
            assert(alphabet < cols);
            Ok(row[alphabet as usize])
        } else {
            Err(())
        }
    }

    /// Runs the automaton on `input`: whether it ends in an accepting state,
    /// or an error when a letter is out of range or a transition leads
    /// outside the states.
    pub fn execute(&self, input: Vec<u64>) -> (r: Result<bool, ()>)
        requires
            self.wf(),
        ensures
            r == self.outcome(input@),
    {
        let mut k: usize = 0;
        while k < input.len()
            invariant
                k <= input@.len(),
                forall|j: int| 0 <= j < k ==> #[trigger] input@[j] < self.alphabets,
            decreases input@.len() - k,
        {
            if input[k] >= self.alphabets {
                return Err(());
            }
            k = k + 1;
        }
        let ghost goal = run(self.table(), self.initial_state, input@);
        let mut state = self.initial_state;
        let mut k: usize = 0;
        assert(input@.skip(0) =~= input@);
        while k < input.len()
            invariant
                self.wf(),
                k <= input@.len(),
                letters_ok(self.alphabets, input@),
                goal == run(self.table(), self.initial_state, input@),
                run(self.table(), state, input@.skip(k as int)) == goal,
            decreases input@.len() - k,
        {
            assert(input@.skip(k as int).drop_first() =~= input@.skip(k + 1 as int));
            assert(input@.skip(k as int)[0] == input@[k as int]);
            assert(self.table().len() == self.states);
            match self.transition(state, input[k]) {
                Ok(next) => {
                    state = next;
                },
                Err(()) => {
                    return Err(());
                },
            }
            k = k + 1;
        }
        Ok(self.accept_states.contains(&state))
    }

    /// Whether the automaton accepts `input`; an input on which `execute`
    /// fails is not accepted.
    pub fn is_language(&self, input: Vec<u64>) -> (r: bool)
        requires
            self.wf(),
        ensures
            r == (self.outcome(input@) == Ok::<bool, ()>(true)),
    {
        match self.execute(input) {
            Ok(res) => res,
            _ => false,
        }
    }
}

} // verus!
