//! States and their transitions.
use vstd::prelude::*;
use vstd::std_specs::cmp::PartialEqSpecImpl;
use crate::automaton::{StateView, TransitionView};
use crate::matcher::Matchers;

verus! {

/// A prioritised edge to the state named `to`, guarded by a matcher.
///
/// The target is held by name: states are identified by name alone, so the
/// name is all that a transition needs of its target.
#[derive(Clone)]
pub struct Transition {
    to: String,
    matcher: Matchers,
}

impl View for Transition {
    type V = TransitionView;

    closed spec fn view(&self) -> TransitionView {
        TransitionView { to: self.to@, matcher: self.matcher }
    }
}

impl Transition {
    /// The name of the target state.
    pub fn target(&self) -> (name: &String)
        ensures
            name@ == self@.to,
    {
        &self.to
    }

    pub fn matcher(&self) -> (m: Matchers)
        ensures
            m == self@.matcher,
    {
        self.matcher
    }
}

/// A named node of the graph, with its outgoing transitions in priority
/// order: the transition at index 0 is tried first.
///
/// A state is identified by its name. The two lists of group tags are
/// reserved for the capture of submatches; nothing reads them yet and they
/// stay empty.
#[derive(Clone)]
pub struct State {
    name: String,
    transitions: Vec<Transition>,
    start_groups: Vec<String>,
    end_groups: Vec<String>,
}

impl View for State {
    type V = StateView;

    closed spec fn view(&self) -> StateView {
        StateView { name: self.name@, transitions: Seq::new(self.transitions@.len(), |k: int| self.transitions@[k]@) }
    }
}

/// The views of a list of string slices.
pub open spec fn str_views(names: Seq<&str>) -> Seq<Seq<char>> {
    Seq::new(names.len(), |i: int| names[i]@)
}

/// The views of a list of strings.
pub open spec fn string_views(names: Seq<String>) -> Seq<Seq<char>> {
    Seq::new(names.len(), |i: int| names[i]@)
}

impl State {
    /// A state of that name, without transitions.
    pub fn new(name: &str) -> (s: State)
        ensures
            s@ == StateView::fresh(name@),
    {
        let s = State {
            name: name.to_owned(),
            transitions: Vec::new(),
            start_groups: Vec::new(),
            end_groups: Vec::new(),
        };
        assert(s@.transitions =~= Seq::empty());
        s
    }

    /// One fresh state for each name, in the order of the names.
    pub fn from_collection(names: &[&str]) -> (states: Vec<State>)
        ensures
            states@.len() == names@.len(),
            forall|i: int|
                0 <= i < names@.len() ==> (#[trigger] states@[i])@ == StateView::fresh(names@[i]@),
    {
        let mut states: Vec<State> = Vec::new();
        let mut i: usize = 0;
        while i < names.len()
            invariant
                i <= names@.len(),
                states@.len() == i,
                forall|j: int|
                    0 <= j < i ==> (#[trigger] states@[j])@ == StateView::fresh(names@[j]@),
            decreases names@.len() - i,
        {
            states.push(State::new(names[i]));
            i += 1;
        }
        states
    }

    /// Appends a transition to `to_state`: it gets the lowest priority.
    /// The transitions that were there keep their places.
    pub fn add_transition(&mut self, to_state: State, matcher: Matchers)
        ensures
            final(self)@.name == old(self)@.name,
            final(self)@.transitions == old(self)@.transitions.push(
                TransitionView { to: to_state@.name, matcher },
            ),
    {
        self.transitions.push(Transition { to: to_state.name, matcher });
        assert(self@.transitions =~= old(self)@.transitions.push(
            TransitionView { to: to_state@.name, matcher },
        ));
    }

    /// Puts a transition to `to_state` in front of the others: it gets the
    /// highest priority. The transitions that were there keep their order.
    pub fn unshift_transition(&mut self, to_state: State, matcher: Matchers)
        ensures
            final(self)@.name == old(self)@.name,
            final(self)@.transitions == seq![TransitionView { to: to_state@.name, matcher }]
                + old(self)@.transitions,
    {
        self.transitions.insert(0, Transition { to: to_state.name, matcher });
        assert(self@.transitions =~= seq![TransitionView { to: to_state@.name, matcher }] + old(
            self,
        )@.transitions);
    }

    pub fn name(&self) -> (name: &String)
        ensures
            name@ == self@.name,
    {
        &self.name
    }

    /// The outgoing transitions, highest priority first.
    pub fn transitions(&self) -> (ts: &Vec<Transition>)
        ensures
            ts@.len() == self@.transitions.len(),
            forall|k: int| 0 <= k < ts@.len() ==> (#[trigger] ts@[k])@ == self@.transitions[k],
    {
        &self.transitions
    }
}

/// States are compared by name alone: two states of one name are the same
/// state, whatever their transitions.
impl PartialEq for State {
    fn eq(&self, other: &State) -> (same: bool) {
        self.name == other.name
    }
}

impl PartialEqSpecImpl for State {
    open spec fn obeys_eq_spec() -> bool {
        true
    }

    open spec fn eq_spec(&self, other: &State) -> bool {
        self@.name == other@.name
    }
}

impl Eq for State {

}

} // verus!
