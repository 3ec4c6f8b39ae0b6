//! The engine: a graph of uniquely named states, built step by step, and the
//! backtracking search that decides whether it accepts an input.
use vstd::prelude::*;
use crate::automaton::{
    Automaton, StateView, TransitionView, lemma_index_of, lemma_with_accepting, lemma_with_initial,
    lemma_with_state, lemma_with_states, lemma_with_transitions_of,
};
use crate::matcher::Matchers;
use crate::search::{
    Edge, SearchConfig, children, config_ok, explores, finds, stack_weight, successor,
    lemma_children, lemma_finds_through_successor, lemma_reached_accepting, lemma_reaches_start,
    lemma_search_complete, lemma_step_decreases,
};
use crate::state::{State, str_views, string_views};

verus! {

/// One entry of the search stack: where the search stands, and the epsilon
/// moves it has made since it last consumed a character.
struct EngineState {
    pos: usize,
    state: String,
    memory: Vec<(String, String)>,
}

spec fn memory_model(memory: Seq<(String, String)>) -> Seq<Edge> {
    Seq::new(memory.len(), |j: int| (memory[j].0@, memory[j].1@))
}

spec fn stack_model(stack: Seq<EngineState>) -> Seq<SearchConfig> {
    Seq::new(stack.len(), |j: int| stack[j].model())
}

impl EngineState {
    spec fn model(&self) -> SearchConfig {
        SearchConfig {
            state: self.state@,
            pos: self.pos as int,
            memory: memory_model(self.memory@),
        }
    }
}

/// Whether the move from `from` to `to` is in the memory.
fn remembers(memory: &Vec<(String, String)>, from: &String, to: &String) -> (found: bool)
    ensures
        found == memory_model(memory@).contains((from@, to@)),
{
    let mut j: usize = 0;
    while j < memory.len()
        invariant
            j <= memory@.len(),
            forall|i: int| 0 <= i < j ==> memory_model(memory@)[i] != (from@, to@),
        decreases memory@.len() - j,
    {
        if memory[j].0 == *from && memory[j].1 == *to {
            assert(memory_model(memory@)[j as int] == (from@, to@));
            return true;
        }
        j += 1;
    }
    false
}

/// A copy of the memory with the move from `from` to `to` added.
fn remember(memory: &Vec<(String, String)>, from: &String, to: &String) -> (longer: Vec<
    (String, String),
>)
    ensures
        memory_model(longer@) == memory_model(memory@).push((from@, to@)),
{
    let mut longer: Vec<(String, String)> = Vec::new();
    let mut j: usize = 0;
    while j < memory.len()
        invariant
            j <= memory@.len(),
            longer@.len() == j,
            forall|i: int| 0 <= i < j ==> memory_model(longer@)[i] == memory_model(memory@)[i],
        decreases memory@.len() - j,
    {
        longer.push((memory[j].0.clone(), memory[j].1.clone()));
        j += 1;
    }
    longer.push((from.clone(), to.clone()));
    assert(memory_model(longer@) =~= memory_model(memory@).push((from@, to@)));
    longer
}

/// A nondeterministic automaton with epsilon moves, and the search that runs
/// it.
///
/// States are identified by name and no name is registered twice. The
/// initial state and the accepting states are always registered. The target
/// of a transition need not be: a name that is not registered stands for a
/// state without transitions.
pub struct NFAEngine {
    states: Vec<State>,
    initial_state: String,
    ending_states: Vec<String>,
}

impl View for NFAEngine {
    type V = Automaton;

    closed spec fn view(&self) -> Automaton {
        Automaton {
            states: Seq::new(self.states@.len(), |i: int| self.states@[i]@),
            initial: self.initial_state@,
            accepting: string_views(self.ending_states@),
        }
    }
}

impl NFAEngine {
    /// The invariant of the engine, which every constructor establishes and
    /// every operation keeps.
    pub open spec fn wf(&self) -> bool {
        self@.wf()
    }

    /// The index of the state of that name.
    fn find_state(&self, name: &String) -> (found: Option<usize>)
        ensures
            match found {
                Some(i) => i < self.states@.len() && self.states@[i as int]@.name == name@
                    && self@.has_state(name@),
                None => !self@.has_state(name@),
            },
    {
        let mut i: usize = 0;
        while i < self.states.len()
            invariant
                i <= self.states@.len(),
                forall|j: int| 0 <= j < i ==> self@.states[j].name != name@,
            decreases self.states@.len() - i,
        {
            if *self.states[i].name() == *name {
                assert(self@.states[i as int].name == name@);
                return Some(i);
            }
            i += 1;
        }
        None
    }

    /// Whether `name` is among the accepting states.
    fn accepts_name(&self, name: &String) -> (accepting: bool)
        ensures
            accepting == self@.is_accepting(name@),
    {
        let mut i: usize = 0;
        while i < self.ending_states.len()
            invariant
                i <= self.ending_states@.len(),
                forall|j: int| 0 <= j < i ==> self@.accepting[j] != name@,
            decreases self.ending_states@.len() - i,
        {
            if self.ending_states[i] == *name {
                assert(self@.accepting[i as int] == name@);
                return true;
            }
            i += 1;
        }
        false
    }

    /// An engine whose only state is the initial state `initial`, and which
    /// has no accepting state yet.
    pub fn new(initial: &str) -> (engine: NFAEngine)
        ensures
            engine.wf(),
            engine@ == Automaton::starting_at(initial@),
    {
        let mut states: Vec<State> = Vec::new();
        states.push(State::new(initial));
        let engine = NFAEngine {
            states,
            initial_state: initial.to_owned(),
            ending_states: Vec::new(),
        };
        assert(engine@.states =~= seq![StateView::fresh(initial@)]);
        assert(engine@.accepting =~= Seq::empty());
        assert(engine@.states[0].name == initial@);
        engine
    }

    /// An engine with the initial state `initial` and a state for each of
    /// `states`.
    pub fn new_with_states(initial: &str, states: &[&str]) -> (engine: NFAEngine)
        ensures
            engine.wf(),
            engine@ == Automaton::starting_at(initial@).with_states(str_views(states@)),
    {
        let mut engine = NFAEngine::new(initial);
        engine.declare_states_with_names(states);
        engine
    }

    /// The number of states.
    pub fn state_len(&self) -> (n: usize)
        ensures
            n == self@.states.len(),
    {
        self.states.len()
    }

    /// Whether a state of that name is registered.
    pub fn has_state(&self, state: &str) -> (found: bool)
        ensures
            found == self@.has_state(state@),
    {
        let name = state.to_owned();
        self.find_state(&name).is_some()
    }

    /// The state of that name, if one is registered.
    pub fn get_state(&self, name: &str) -> (found: Option<&State>)
        requires
            self.wf(),
        ensures
            match found {
                Some(state) => {
                    &&& self@.has_state(name@)
                    &&& state@ == self@.states[self@.index_of(name@)]
                    &&& state@.name == name@
                    &&& state@.transitions == self@.transitions_of(name@)
                },
                None => !self@.has_state(name@),
            },
    {
        let key = name.to_owned();
        match self.find_state(&key) {
            Some(i) => {
                proof {
                    lemma_index_of(self@, i as int);
                }
                Some(&self.states[i])
            },
            None => None,
        }
    }

    /// The name of the initial state.
    pub fn initial_state(&self) -> (name: &String)
        ensures
            name@ == self@.initial,
    {
        &self.initial_state
    }

    /// Registers a state of that name, without transitions, and says whether
    /// it did. Where the name is taken, the state that bears it stays as it
    /// is, with its transitions.
    pub fn add_state(&mut self, state: &str) -> (added: bool)
        requires
            old(self).wf(),
        ensures
            final(self).wf(),
            final(self)@ == old(self)@.with_state(state@),
            added == !old(self)@.has_state(state@),
    {
        let name = state.to_owned();
        proof {
            lemma_with_state(self@, state@);
        }
        match self.find_state(&name) {
            Some(_) => false,
            None => {
                self.states.push(State::new(state));
                assert(self@.states =~= old(self)@.states.push(StateView::fresh(state@)));
                true
            },
        }
    }

    /// Registers a state for each of the names.
    pub fn add_states(&mut self, states: &[String])
        requires
            old(self).wf(),
        ensures
            final(self).wf(),
            final(self)@ == old(self)@.with_states(string_views(states@)),
    {
        let ghost names = string_views(states@);
        let mut i: usize = 0;
        while i < states.len()
            invariant
                i <= states@.len(),
                names == string_views(states@),
                self.wf(),
                self@ == old(self)@.with_states(names.take(i as int)),
            decreases states@.len() - i,
        {
            self.add_state(states[i].as_str());
            proof {
                assert(names.take(i + 1).drop_last() =~= names.take(i as int));
            }
            i += 1;
        }
        proof {
            assert(names.take(i as int) =~= names);
        }
    }

    /// Registers a state for each of the names.
    pub fn declare_states_with_names(&mut self, names: &[&str])
        requires
            old(self).wf(),
        ensures
            final(self).wf(),
            final(self)@ == old(self)@.with_states(str_views(names@)),
    {
        let ghost views = str_views(names@);
        let mut i: usize = 0;
        while i < names.len()
            invariant
                i <= names@.len(),
                views == str_views(names@),
                self.wf(),
                self@ == old(self)@.with_states(views.take(i as int)),
            decreases names@.len() - i,
        {
            self.add_state(names[i]);
            proof {
                assert(views.take(i + 1).drop_last() =~= views.take(i as int));
            }
            i += 1;
        }
        proof {
            assert(views.take(i as int) =~= views);
        }
    }

    /// Makes the state of that name the initial state. The state has to be
    /// registered: to name an unknown state is a fault of the caller.
    pub fn set_initial_state(&mut self, state: &str)
        requires
            old(self).wf(),
            old(self)@.has_state(state@),
        ensures
            final(self).wf(),
            final(self)@ == old(self)@.with_initial(state@),
    {
        proof {
            lemma_with_initial(self@, state@);
        }
        if self.has_state(state) {
            self.initial_state = state.to_owned();
        }
    }

    /// Makes the states of these names the accepting states, in place of
    /// those that were, and registers the names that are not registered yet.
    /// An empty list changes nothing.
    pub fn set_ending_states(&mut self, states: &[&str])
        requires
            old(self).wf(),
        ensures
            final(self).wf(),
            final(self)@ == old(self)@.with_accepting(str_views(states@)),
    {
        if states.len() == 0 {
            return ;
        }
        let ghost views = str_views(states@);
        proof {
            lemma_with_accepting(self@, views);
        }
        self.declare_states_with_names(states);
        let mut ending: Vec<String> = Vec::new();
        let mut i: usize = 0;
        while i < states.len()
            invariant
                i <= states@.len(),
                ending@.len() == i,
                forall|j: int| 0 <= j < i ==> (#[trigger] ending@[j])@ == states@[j]@,
            decreases states@.len() - i,
        {
            ending.push(states[i].to_owned());
            i += 1;
        }
        self.ending_states = ending;
        proof {
            assert(self@.accepting =~= views);
        }
    }

    /// Gives the state `from` a transition to `to`, of lower priority than
    /// all that it has. `from` has to be registered: to name an unknown
    /// source is a fault of the caller. `to` need not be, and is not
    /// registered by this.
    pub fn add_transition(&mut self, from: &str, to: &str, matcher: Matchers)
        requires
            old(self).wf(),
            old(self)@.has_state(from@),
        ensures
            final(self).wf(),
            final(self)@ == old(self)@.with_transition(
                from@,
                TransitionView { to: to@, matcher },
            ),
    {
        let key = from.to_owned();
        let ghost t = TransitionView { to: to@, matcher };
        let ghost longer = self@.transitions_of(from@).push(t);
        proof {
            lemma_with_transitions_of(self@, from@, longer);
        }
        match self.find_state(&key) {
            Some(i) => {
                proof {
                    lemma_index_of(self@, i as int);
                }
                self.states[i].add_transition(State::new(to), matcher);
                proof {
                    assert(self@.states =~= old(self)@.states.update(
                        i as int,
                        StateView { name: from@, transitions: longer },
                    ));
                }
            },
            None => {},
        }
    }

    /// Gives the state named as `from` is a transition to the state named as
    /// `to` is, of higher priority than all that it has. The source has to be
    /// registered; the target need not be.
    pub fn unshift_transition(&mut self, from: State, to: State, matcher: Matchers)
        requires
            old(self).wf(),
            old(self)@.has_state(from@.name),
        ensures
            final(self).wf(),
            final(self)@ == old(self)@.with_priority_transition(
                from@.name,
                TransitionView { to: to@.name, matcher },
            ),
    {
        let ghost t = TransitionView { to: to@.name, matcher };
        let ghost longer = seq![t] + self@.transitions_of(from@.name);
        proof {
            lemma_with_transitions_of(self@, from@.name, longer);
        }
        match self.find_state(from.name()) {
            Some(i) => {
                proof {
                    lemma_index_of(self@, i as int);
                }
                self.states[i].unshift_transition(to, matcher);
                proof {
                    assert(self@.states =~= old(self)@.states.update(
                        i as int,
                        StateView { name: from@.name, transitions: longer },
                    ));
                }
            },
            None => {},
        }
    }

    /// Whether `state` is one of the accepting states.
    pub fn is_ending_state(&self, state: &str) -> (accepting: bool)
        ensures
            accepting == self@.is_accepting(state@),
    {
        let name = state.to_owned();
        self.accepts_name(&name)
    }

    /// Puts on the stack the successors of `current`: one for each transition
    /// out of its state whose matcher is satisfied at its offset, but for the
    /// epsilon moves that its memory holds. The transitions are gone through
    /// from the last to the first, so that the successor by the first of them
    /// comes to lie on top.
    fn push_successors(&self, input: &str, current: &EngineState, stack: &mut Vec<EngineState>)
        requires
            self.wf(),
        ensures
            stack_model(final(stack)@) == stack_model(old(stack)@) + children(
                self@,
                input@,
                current.model(),
                0,
                self@.transitions_of(current.state@).len() as int,
            ),
    {
        let ghost g = self@;
        let ghost c = current.model();
        let ghost ts = g.transitions_of(c.state);
        match self.find_state(&current.state) {
            Some(si) => {
                let transitions = self.states[si].transitions();
                let mut idx: usize = transitions.len();
                proof {
                    lemma_index_of(g, si as int);
                    assert(stack_model(stack@) =~= stack_model(old(stack)@) + children(
                        g,
                        input@,
                        c,
                        idx as int,
                        ts.len() as int,
                    ));
                }
                while idx > 0
                    invariant
                        g == self@,
                        c == current.model(),
                        ts == g.transitions_of(c.state),
                        idx <= transitions@.len(),
                        transitions@.len() == ts.len(),
                        forall|k: int|
                            0 <= k < transitions@.len() ==> (#[trigger] transitions@[k])@ == ts[k],
                        stack_model(stack@) == stack_model(old(stack)@) + children(
                            g,
                            input@,
                            c,
                            idx as int,
                            ts.len() as int,
                        ),
                    decreases idx,
                {
                    let ghost stacked = stack@;
                    idx -= 1;
                    let t = &transitions[idx];
                    let m = t.matcher();
                    let ghost later = children(g, input@, c, idx + 1, ts.len() as int);
                    proof {
                        assert(transitions@[idx as int]@ == ts[idx as int]);
                    }
                    if m.matches(input, current.pos) {
                        if m.is_epsilon() {
                            if !remembers(&current.memory, &current.state, t.target()) {
                                let memory = remember(&current.memory, &current.state, t.target());
                                stack.push(
                                    EngineState {
                                        pos: current.pos,
                                        state: t.target().clone(),
                                        memory,
                                    },
                                );
                                proof {
                                    assert(stack@.last().model() == successor(g, c, idx as int));
                                    assert(stack_model(stack@) =~= stack_model(stacked).push(
                                        successor(g, c, idx as int),
                                    ));
                                }
                            }
                        } else {
                            stack.push(
                                EngineState {
                                    pos: current.pos + 1,
                                    state: t.target().clone(),
                                    memory: Vec::new(),
                                },
                            );
                            proof {
                                assert(stack@.last().model().memory =~= Seq::<Edge>::empty());
                                assert(stack@.last().model() == successor(g, c, idx as int));
                                assert(stack_model(stack@) =~= stack_model(stacked).push(
                                    successor(g, c, idx as int),
                                ));
                            }
                        }
                    }
                    proof {
                        let now = children(g, input@, c, idx as int, ts.len() as int);
                        assert(now == if explores(g, input@, c, idx as int) {
                            later.push(successor(g, c, idx as int))
                        } else {
                            later
                        });
                        assert(stack_model(stack@) =~= stack_model(old(stack)@) + now);
                    }
                }
            },
            None => {
                proof {
                    assert(stack_model(stack@) =~= stack_model(old(stack)@) + children(
                        g,
                        input@,
                        c,
                        0,
                        0,
                    ));
                }
            },
        }
    }

    /// Decides whether the automaton accepts `input`: whether some sequence
    /// of transitions leads from the initial state to an accepting state
    /// while the characters it consumes are the input's, from the first on.
    /// Input that is left when an accepting state is reached is ignored.
    ///
    /// The search is depth-first and backtracks, with a stack of its own in
    /// place of recursion. Out of each state it tries the transitions in
    /// priority order. It ends on every graph, whatever cycles of epsilon
    /// transitions the graph has. The time it takes can grow exponentially
    /// with the input.
    pub fn compute(&self, input: &str) -> (accepted: bool)
        requires
            self.wf(),
        ensures
            accepted == self@.accepts(input@),
    {
        let ghost g = self@;
        let ghost text = input@;
        let mut stack: Vec<EngineState> = Vec::new();
        stack.push(EngineState { pos: 0, state: self.initial_state.clone(), memory: Vec::new() });
        proof {
            lemma_reaches_start(g, text);
            assert(stack@[0].model().memory =~= Seq::<Edge>::empty());
            assert(stack_model(stack@)[0] == SearchConfig::start(g));
        }
        while stack.len() > 0
            invariant
                self.wf(),
                g == self@,
                text == input@,
                forall|i: int|
                    0 <= i < stack@.len() ==> {
                        let waiting = #[trigger] stack_model(stack@)[i];
                        config_ok(g, text, waiting) && g.reaches(text, waiting.point())
                    },
                finds(g, text, SearchConfig::start(g)) ==> exists|i: int|
                    0 <= i < stack@.len() && finds(g, text, #[trigger] stack_model(stack@)[i]),
            decreases stack_weight(g, text, stack_model(stack@)),
        {
            let ghost before = stack_model(stack@);
            let current = stack.pop().unwrap();
            let ghost rest = stack_model(stack@);
            let ghost c = current.model();
            proof {
                assert(before =~= rest.push(c));
                assert(config_ok(g, text, before[before.len() - 1]));
                assert forall|i: int| 0 <= i < rest.len() implies {
                    let waiting = #[trigger] rest[i];
                    config_ok(g, text, waiting) && g.reaches(text, waiting.point())
                } by {
                    assert(rest[i] == before[i]);
                }
            }
            if self.accepts_name(&current.state) {
                proof {
                    lemma_reached_accepting(g, text, c.point());
                }
                return true;
            }
            self.push_successors(input, &current, &mut stack);
            proof {
                let n = g.transitions_of(c.state).len() as int;
                let kids = children(g, text, c, 0, n);
                let after = stack_model(stack@);
                assert(after == rest + kids);
                lemma_children(g, text, c, 0, n);
                lemma_step_decreases(g, text, rest, c);
                assert forall|i: int| 0 <= i < after.len() implies {
                    let waiting = #[trigger] after[i];
                    config_ok(g, text, waiting) && g.reaches(text, waiting.point())
                } by {
                    if i < rest.len() {
                        assert(after[i] == rest[i]);
                    } else {
                        assert(after[i] == kids[i - rest.len()]);
                    }
                }
                if finds(g, text, SearchConfig::start(g)) {
                    let i = choose|i: int| 0 <= i < before.len() && finds(g, text, #[trigger] before[i]);
                    if i == before.len() - 1 {
                        lemma_finds_through_successor(g, text, c);
                        let k = choose|k: int|
                            #[trigger] explores(g, text, c, k) && finds(
                                g,
                                text,
                                successor(g, c, k),
                            );
                        let j = choose|j: int|
                            0 <= j < kids.len() && kids[j] == successor(g, c, k);
                        assert(after[rest.len() + j] == kids[j]);
                    } else {
                        assert(after[i] == rest[i]);
                    }
                }
            }
        }
        proof {
            if self@.accepts(input@) {
                lemma_search_complete(g, text);
            }
        }
        false
    }
}

/// The decision is a function of the graph and the input: two calls of
/// `compute` on the same engine and the same input return the same.
pub proof fn lemma_compute_deterministic(engine: NFAEngine, input: &str, first: bool, second: bool)
    requires
        call_ensures(NFAEngine::compute, (&engine, input), first),
        call_ensures(NFAEngine::compute, (&engine, input), second),
    ensures
        first == second,
        first == engine@.accepts(input@),
{
}

/// Queries do not depend on when they are made: two calls of `has_state`, or
/// of `get_state`, on the same engine and name return the same.
pub proof fn lemma_queries_stable(
    engine: NFAEngine,
    name: &str,
    has_first: bool,
    has_second: bool,
    got_first: Option<&State>,
    got_second: Option<&State>,
)
    requires
        call_ensures(NFAEngine::has_state, (&engine, name), has_first),
        call_ensures(NFAEngine::has_state, (&engine, name), has_second),
        call_ensures(NFAEngine::get_state, (&engine, name), got_first),
        call_ensures(NFAEngine::get_state, (&engine, name), got_second),
    ensures
        has_first == has_second,
        has_first == got_first.is_some(),
        got_first.is_some() == got_second.is_some(),
        got_first matches Some(a) ==> got_second matches Some(b) && a@ == b@,
{
}

} // verus!
