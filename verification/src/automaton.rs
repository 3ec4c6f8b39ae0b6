//! The mathematical model of the engine: a finite graph of named states, and
//! what it means for it to accept an input.
use vstd::prelude::*;
use crate::matcher::Matchers;

verus! {

/// A transition as the model sees it: the name of the target and the guard.
pub ghost struct TransitionView {
    pub to: Seq<char>,
    pub matcher: Matchers,
}

/// A state as the model sees it: its name and its outgoing transitions, the
/// one at index 0 having the highest priority.
pub ghost struct StateView {
    pub name: Seq<char>,
    pub transitions: Seq<TransitionView>,
}

/// A point of a run: the state the automaton is in and how many characters
/// of the input it has consumed.
pub ghost struct Config {
    pub state: Seq<char>,
    pub pos: int,
}

/// The graph, its initial state and its accepting states.
pub ghost struct Automaton {
    pub states: Seq<StateView>,
    pub initial: Seq<char>,
    pub accepting: Seq<Seq<char>>,
}

impl StateView {
    /// A state without transitions.
    pub open spec fn fresh(name: Seq<char>) -> StateView {
        StateView { name, transitions: Seq::empty() }
    }
}

impl Automaton {
    /// Whether a state of that name is registered.
    pub open spec fn has_state(self, name: Seq<char>) -> bool {
        exists|i: int| 0 <= i < self.states.len() && #[trigger] self.states[i].name == name
    }

    /// Where the state of that name stands among the registered states.
    pub open spec fn index_of(self, name: Seq<char>) -> int {
        choose|i: int| 0 <= i < self.states.len() && #[trigger] self.states[i].name == name
    }

    /// The outgoing transitions of the state of that name, in priority order.
    /// A name that is not registered has none.
    pub open spec fn transitions_of(self, name: Seq<char>) -> Seq<TransitionView> {
        if self.has_state(name) {
            self.states[self.index_of(name)].transitions
        } else {
            Seq::empty()
        }
    }

    pub open spec fn is_accepting(self, name: Seq<char>) -> bool {
        self.accepting.contains(name)
    }

    /// No two registered states share a name.
    pub open spec fn names_distinct(self) -> bool {
        forall|i: int, j: int|
            0 <= i < j < self.states.len() ==> #[trigger] self.states[i].name
                != #[trigger] self.states[j].name
    }

    /// The invariant of the engine: names are unique, and the initial state
    /// and every accepting state are registered.
    pub open spec fn wf(self) -> bool {
        &&& self.names_distinct()
        &&& self.has_state(self.initial)
        &&& forall|i: int|
            0 <= i < self.accepting.len() ==> self.has_state(#[trigger] self.accepting[i])
    }

    /// The automaton that has `initial` as its only state.
    pub open spec fn starting_at(initial: Seq<char>) -> Automaton {
        Automaton {
            states: seq![StateView::fresh(initial)],
            initial,
            accepting: Seq::empty(),
        }
    }

    /// Registers a state of that name, without transitions. Where the name is
    /// taken, nothing changes.
    pub open spec fn with_state(self, name: Seq<char>) -> Automaton {
        if self.has_state(name) {
            self
        } else {
            Automaton { states: self.states.push(StateView::fresh(name)), ..self }
        }
    }

    /// Registers the names one after the other.
    pub open spec fn with_states(self, names: Seq<Seq<char>>) -> Automaton
        decreases names.len(),
    {
        if names.len() == 0 {
            self
        } else {
            self.with_states(names.drop_last()).with_state(names.last())
        }
    }

    pub open spec fn with_initial(self, name: Seq<char>) -> Automaton {
        Automaton { initial: name, ..self }
    }

    /// Makes `names` the accepting states, registering those that are
    /// missing. An empty list changes nothing.
    pub open spec fn with_accepting(self, names: Seq<Seq<char>>) -> Automaton {
        if names.len() == 0 {
            self
        } else {
            Automaton { accepting: names, ..self.with_states(names) }
        }
    }

    /// Replaces the transitions of the state `from`, if it is registered.
    pub open spec fn with_transitions_of(
        self,
        from: Seq<char>,
        transitions: Seq<TransitionView>,
    ) -> Automaton {
        if self.has_state(from) {
            Automaton {
                states: self.states.update(
                    self.index_of(from),
                    StateView { name: from, transitions },
                ),
                ..self
            }
        } else {
            self
        }
    }

    /// Gives `from` one more transition, of the lowest priority.
    pub open spec fn with_transition(self, from: Seq<char>, t: TransitionView) -> Automaton {
        self.with_transitions_of(from, self.transitions_of(from).push(t))
    }

    /// Gives `from` one more transition, of the highest priority.
    pub open spec fn with_priority_transition(
        self,
        from: Seq<char>,
        t: TransitionView,
    ) -> Automaton {
        self.with_transitions_of(from, seq![t] + self.transitions_of(from))
    }

    /// The automaton can go from `a` to `b` by its transition number `k` out
    /// of `a.state`: the guard is satisfied at `a.pos`, `b.state` is the
    /// target, and `b.pos` is one further if a character was consumed.
    pub open spec fn moves_by(self, input: Seq<char>, a: Config, b: Config, k: int) -> bool {
        let ts = self.transitions_of(a.state);
        &&& 0 <= k < ts.len()
        &&& ts[k].matcher.matches_at(input, a.pos)
        &&& b.state == ts[k].to
        &&& b.pos == ts[k].matcher.advance(a.pos)
    }

    /// The automaton can go from `a` to `b` in one transition.
    pub open spec fn moves(self, input: Seq<char>, a: Config, b: Config) -> bool {
        exists|k: int| #[trigger] self.moves_by(input, a, b, k)
    }

    /// Each point of `path` follows from the one before it by one transition.
    pub open spec fn is_path(self, input: Seq<char>, path: Seq<Config>) -> bool {
        forall|i: int|
            0 <= i < path.len() - 1 ==> self.moves(input, #[trigger] path[i], path[i + 1])
    }

    /// A run: a path that starts in the initial state with nothing consumed.
    pub open spec fn is_run(self, input: Seq<char>, run: Seq<Config>) -> bool {
        &&& run.len() > 0
        &&& run[0] == Config { state: self.initial, pos: 0 }
        &&& self.is_path(input, run)
    }

    /// Whether some run ends in `c`.
    pub open spec fn reaches(self, input: Seq<char>, c: Config) -> bool {
        exists|run: Seq<Config>| #[trigger] self.is_run(input, run) && run.last() == c
    }

    /// The automaton accepts `input` if some run ends in an accepting state.
    /// Such a run consumes a prefix of the input: what follows is ignored.
    pub open spec fn accepts(self, input: Seq<char>) -> bool {
        exists|run: Seq<Config>|
            #[trigger] self.is_run(input, run) && self.is_accepting(run.last().state)
    }
}

/// Where names are unique, the index of a state's name is the state's index.
pub proof fn lemma_index_of(g: Automaton, i: int)
    requires
        g.names_distinct(),
        0 <= i < g.states.len(),
    ensures
        g.has_state(g.states[i].name),
        g.index_of(g.states[i].name) == i,
        g.transitions_of(g.states[i].name) == g.states[i].transitions,
{
    let name = g.states[i].name;
    let j = g.index_of(name);
    assert(0 <= j < g.states.len() && g.states[j].name == name);
    if j != i {
        if j < i {
            assert(g.states[j].name != g.states[i].name);
        } else {
            assert(g.states[i].name != g.states[j].name);
        }
    }
}

/// A registered name has an index, and the state there bears the name.
pub proof fn lemma_index_of_name(g: Automaton, name: Seq<char>)
    requires
        g.has_state(name),
    ensures
        0 <= g.index_of(name) < g.states.len(),
        g.states[g.index_of(name)].name == name,
{
}

/// Registering a state keeps the invariant and the states that were there,
/// with their transitions. The name is registered afterwards; registering it
/// again changes nothing.
pub proof fn lemma_with_state(g: Automaton, name: Seq<char>)
    requires
        g.wf(),
    ensures
        g.with_state(name).wf(),
        g.with_state(name).has_state(name),
        g.with_state(name).with_state(name) == g.with_state(name),
        forall|other: Seq<char>|
            g.has_state(other) ==> #[trigger] g.with_state(name).has_state(other)
                && g.with_state(name).transitions_of(other) == g.transitions_of(other),
        forall|other: Seq<char>|
            #[trigger] g.with_state(name).has_state(other) ==> g.has_state(other) || other == name,
        !g.has_state(name) ==> g.with_state(name).transitions_of(name) == Seq::<
            TransitionView,
        >::empty(),
{
    let after = g.with_state(name);
    if !g.has_state(name) {
        let last = g.states.len() as int;
        assert(after.states[last].name == name);
        assert forall|other: Seq<char>| g.has_state(other) implies #[trigger] after.has_state(other)
            && after.transitions_of(other) == g.transitions_of(other) by {
            let i = g.index_of(other);
            assert(after.states[i].name == other);
            lemma_index_of(g, i);
            lemma_index_of(after, i);
        }
        assert forall|other: Seq<char>| #[trigger] after.has_state(other) implies g.has_state(other)
            || other == name by {
            let i = after.index_of(other);
            if i < last {
                assert(g.states[i].name == other);
            }
        }
        assert(after.has_state(after.initial));
        assert forall|i: int| 0 <= i < after.accepting.len() implies after.has_state(
            #[trigger] after.accepting[i],
        ) by {
            assert(g.has_state(g.accepting[i]));
        }
        lemma_index_of(after, last);
    }
}

/// Registering a list of names keeps the invariant and the states that were
/// there, and registers every name of the list.
pub proof fn lemma_with_states(g: Automaton, names: Seq<Seq<char>>)
    requires
        g.wf(),
    ensures
        g.with_states(names).wf(),
        g.with_states(names).initial == g.initial,
        g.with_states(names).accepting == g.accepting,
        forall|i: int| 0 <= i < names.len() ==> g.with_states(names).has_state(#[trigger] names[i]),
        forall|other: Seq<char>|
            g.has_state(other) ==> #[trigger] g.with_states(names).has_state(other)
                && g.with_states(names).transitions_of(other) == g.transitions_of(other),
    decreases names.len(),
{
    if names.len() > 0 {
        let before = g.with_states(names.drop_last());
        lemma_with_states(g, names.drop_last());
        lemma_with_state(before, names.last());
        let after = g.with_states(names);
        assert forall|i: int| 0 <= i < names.len() implies after.has_state(#[trigger] names[i]) by {
            if i < names.len() - 1 {
                assert(before.has_state(names.drop_last()[i]));
            }
        }
        assert forall|other: Seq<char>| g.has_state(other) implies #[trigger] after.has_state(other)
            && after.transitions_of(other) == g.transitions_of(other) by {
            assert(before.has_state(other));
        }
    }
}

/// Making a registered state the initial one keeps the invariant.
pub proof fn lemma_with_initial(g: Automaton, name: Seq<char>)
    requires
        g.wf(),
        g.has_state(name),
    ensures
        g.with_initial(name).wf(),
{
    let after = g.with_initial(name);
    assert(after.states == g.states);
    assert(after.has_state(name)) by {
        let i = g.index_of(name);
        assert(after.states[i].name == name);
    }
    assert forall|i: int| 0 <= i < after.accepting.len() implies after.has_state(
        #[trigger] after.accepting[i],
    ) by {
        let j = g.index_of(g.accepting[i]);
        assert(g.has_state(g.accepting[i]));
        assert(after.states[j].name == g.accepting[i]);
    }
}

/// Setting the accepting states keeps the invariant.
pub proof fn lemma_with_accepting(g: Automaton, names: Seq<Seq<char>>)
    requires
        g.wf(),
    ensures
        g.with_accepting(names).wf(),
{
    if names.len() > 0 {
        lemma_with_states(g, names);
        let mid = g.with_states(names);
        let after = g.with_accepting(names);
        assert(after.states == mid.states);
        assert(after.has_state(after.initial)) by {
            let i = mid.index_of(mid.initial);
            assert(after.states[i].name == after.initial);
        }
        assert forall|i: int| 0 <= i < after.accepting.len() implies after.has_state(
            #[trigger] after.accepting[i],
        ) by {
            assert(mid.has_state(names[i]));
            let j = mid.index_of(names[i]);
            assert(after.states[j].name == names[i]);
        }
    }
}

/// Replacing the transitions of one state leaves the names and the
/// transitions of all other states as they were.
pub proof fn lemma_with_transitions_of(
    g: Automaton,
    from: Seq<char>,
    transitions: Seq<TransitionView>,
)
    requires
        g.wf(),
    ensures
        g.with_transitions_of(from, transitions).wf(),
        forall|name: Seq<char>|
            #[trigger] g.with_transitions_of(from, transitions).has_state(name) == g.has_state(
                name,
            ),
        forall|name: Seq<char>|
            #[trigger] g.with_transitions_of(from, transitions).transitions_of(name) == if name
                == from && g.has_state(from) {
                transitions
            } else {
                g.transitions_of(name)
            },
{
    let after = g.with_transitions_of(from, transitions);
    if g.has_state(from) {
        let at = g.index_of(from);
        assert(forall|i: int|
            0 <= i < g.states.len() ==> (#[trigger] after.states[i]).name == g.states[i].name);
        assert forall|name: Seq<char>| #[trigger] after.has_state(name) == g.has_state(name) by {
            if g.has_state(name) {
                let i = g.index_of(name);
                assert(after.states[i].name == name);
            }
            if after.has_state(name) {
                let i = after.index_of(name);
                assert(g.states[i].name == name);
            }
        }
        assert(after.names_distinct()) by {
            assert forall|i: int, j: int| 0 <= i < j < after.states.len() implies (
            #[trigger] after.states[i]).name != (#[trigger] after.states[j]).name by {
                assert(g.states[i].name != g.states[j].name);
            }
        }
        assert forall|name: Seq<char>| #[trigger]
            after.transitions_of(name) == if name == from && g.has_state(from) {
                transitions
            } else {
                g.transitions_of(name)
            } by {
            if g.has_state(name) {
                let i = g.index_of(name);
                lemma_index_of(g, i);
                assert(after.states[i].name == name);
                lemma_index_of(after, i);
            }
        }
        assert(after.has_state(after.initial));
        assert forall|i: int| 0 <= i < after.accepting.len() implies after.has_state(
            #[trigger] after.accepting[i],
        ) by {
            assert(g.has_state(g.accepting[i]));
        }
    }
}

/// A new transition leaves those that its source had in their places and in
/// their order: appended, it comes after them; given priority, before them.
/// No other state is touched.
pub proof fn lemma_transitions_preserved(g: Automaton, from: Seq<char>, t: TransitionView)
    requires
        g.wf(),
        g.has_state(from),
    ensures
        g.with_transition(from, t).transitions_of(from) == g.transitions_of(from).push(t),
        g.with_priority_transition(from, t).transitions_of(from) == seq![t] + g.transitions_of(
            from,
        ),
        forall|k: int|
            0 <= k < g.transitions_of(from).len() ==> {
                &&& g.with_transition(from, t).transitions_of(from)[k] == g.transitions_of(from)[k]
                &&& g.with_priority_transition(from, t).transitions_of(from)[k + 1]
                    == g.transitions_of(from)[k]
            },
        forall|other: Seq<char>|
            other != from ==> #[trigger] g.with_transition(from, t).transitions_of(other)
                == g.transitions_of(other),
        forall|other: Seq<char>|
            other != from ==> #[trigger] g.with_priority_transition(from, t).transitions_of(other)
                == g.transitions_of(other),
{
    lemma_with_transitions_of(g, from, g.transitions_of(from).push(t));
    lemma_with_transitions_of(g, from, seq![t] + g.transitions_of(from));
    assert(g.with_transition(from, t).transitions_of(from) == g.transitions_of(from).push(t));
    assert(g.with_priority_transition(from, t).transitions_of(from) == seq![t]
        + g.transitions_of(from));
}

/// Every transition of `g` is a transition of `h`, out of the same state.
pub open spec fn transitions_within(g: Automaton, h: Automaton) -> bool {
    forall|name: Seq<char>, k: int|
        0 <= k < g.transitions_of(name).len() ==> h.transitions_of(name).contains(
            #[trigger] g.transitions_of(name)[k],
        )
}

/// An automaton that has every transition of another, and the same initial
/// and accepting states, accepts what the other accepts.
pub proof fn lemma_accepts_monotone(g: Automaton, h: Automaton, input: Seq<char>)
    requires
        transitions_within(g, h),
        g.initial == h.initial,
        g.accepting == h.accepting,
        g.accepts(input),
    ensures
        h.accepts(input),
{
    let run = choose|run: Seq<Config>|
        #[trigger] g.is_run(input, run) && g.is_accepting(run.last().state);
    assert forall|i: int| 0 <= i < run.len() - 1 implies h.moves(
        input,
        #[trigger] run[i],
        run[i + 1],
    ) by {
        assert(g.moves(input, run[i], run[i + 1]));
        let k = choose|k: int| #[trigger] g.moves_by(input, run[i], run[i + 1], k);
        let t = g.transitions_of(run[i].state)[k];
        let ts = h.transitions_of(run[i].state);
        assert(ts.contains(t));
        let j = choose|j: int| 0 <= j < ts.len() && ts[j] == t;
        assert(h.moves_by(input, run[i], run[i + 1], j));
    }
    assert(h.is_run(input, run) && h.is_accepting(run.last().state));
}

/// Priority decides the order in which transitions are tried, never the
/// outcome: whether a transition is appended or given priority, the
/// automaton accepts the same inputs.
pub proof fn lemma_priority_keeps_language(
    g: Automaton,
    from: Seq<char>,
    t: TransitionView,
    input: Seq<char>,
)
    requires
        g.wf(),
    ensures
        g.with_transition(from, t).accepts(input) == g.with_priority_transition(from, t).accepts(
            input,
        ),
{
    let low = g.with_transition(from, t);
    let high = g.with_priority_transition(from, t);
    let appended = g.transitions_of(from).push(t);
    let prepended = seq![t] + g.transitions_of(from);
    lemma_with_transitions_of(g, from, appended);
    lemma_with_transitions_of(g, from, prepended);
    assert(transitions_within(low, high)) by {
        assert forall|name: Seq<char>, k: int|
            0 <= k < low.transitions_of(name).len() implies high.transitions_of(name).contains(
            #[trigger] low.transitions_of(name)[k],
        ) by {
            if name == from && g.has_state(from) {
                if k < appended.len() - 1 {
                    assert(prepended[k + 1] == appended[k]);
                } else {
                    assert(prepended[0] == appended[k]);
                }
            } else {
                assert(high.transitions_of(name)[k] == low.transitions_of(name)[k]);
            }
        }
    }
    assert(transitions_within(high, low)) by {
        assert forall|name: Seq<char>, k: int|
            0 <= k < high.transitions_of(name).len() implies low.transitions_of(name).contains(
            #[trigger] high.transitions_of(name)[k],
        ) by {
            if name == from && g.has_state(from) {
                if k == 0 {
                    assert(appended[appended.len() - 1] == prepended[k]);
                } else {
                    assert(appended[k - 1] == prepended[k]);
                }
            } else {
                assert(low.transitions_of(name)[k] == high.transitions_of(name)[k]);
            }
        }
    }
    if low.accepts(input) {
        lemma_accepts_monotone(low, high, input);
    }
    if high.accepts(input) {
        lemma_accepts_monotone(high, low, input);
    }
}

/// Where no transition leaves the initial state, the automaton accepts an
/// input only if the initial state is accepting.
pub proof fn lemma_no_way_out(g: Automaton, input: Seq<char>)
    requires
        g.transitions_of(g.initial).len() == 0,
        !g.is_accepting(g.initial),
    ensures
        !g.accepts(input),
{
    if g.accepts(input) {
        let run = choose|run: Seq<Config>|
            #[trigger] g.is_run(input, run) && g.is_accepting(run.last().state);
        if run.len() > 1 {
            let first: int = 0;
            assert(g.moves(input, run[first], run[first + 1]));
            let k = choose|k: int| #[trigger] g.moves_by(input, run[first], run[first + 1], k);
        }
    }
}

} // verus!
