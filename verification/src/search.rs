//! The model of the depth-first search that decides acceptance, and the
//! proofs that the search ends and that it misses no accepting run.
//!
//! The search walks configurations: a state, an offset into the input and a
//! memory of the epsilon moves made since the last character was consumed. An
//! epsilon move is remembered by the names of its source and its target, and
//! is not made twice while the offset stays the same. That bounds the walk
//! along any branch, and costs nothing: a run that repeats such a move
//! passes twice through one point and can be cut short.
use vstd::prelude::*;
use vstd::set_lib::lemma_len_subset;
use crate::automaton::{Automaton, Config, StateView, lemma_index_of_name};
use crate::matcher::Matchers;

verus! {

/// An epsilon move, as the search remembers it: source and target by name.
pub type Edge = (Seq<char>, Seq<char>);

/// A configuration of the search.
pub ghost struct SearchConfig {
    pub state: Seq<char>,
    pub pos: int,
    pub memory: Seq<Edge>,
}

impl SearchConfig {
    /// Where the search starts: the initial state, nothing consumed, nothing
    /// remembered.
    pub open spec fn start(g: Automaton) -> SearchConfig {
        SearchConfig { state: g.initial, pos: 0, memory: Seq::empty() }
    }

    /// The point of a run that the configuration stands at.
    pub open spec fn point(self) -> Config {
        Config { state: self.state, pos: self.pos }
    }
}

/// Whether the search follows transition `k` out of `c`: the guard is
/// satisfied at `c.pos` and, for an epsilon transition, the move is not in
/// the memory yet.
pub open spec fn explores(g: Automaton, input: Seq<char>, c: SearchConfig, k: int) -> bool {
    let ts = g.transitions_of(c.state);
    &&& 0 <= k < ts.len()
    &&& ts[k].matcher.matches_at(input, c.pos)
    &&& ts[k].matcher is Epsilon ==> !c.memory.contains((c.state, ts[k].to))
}

/// The configuration that following transition `k` out of `c` leads to. A
/// consumed character empties the memory; an epsilon move is added to it.
pub open spec fn successor(g: Automaton, c: SearchConfig, k: int) -> SearchConfig {
    let t = g.transitions_of(c.state)[k];
    match t.matcher {
        Matchers::Epsilon => SearchConfig {
            state: t.to,
            pos: c.pos,
            memory: c.memory.push((c.state, t.to)),
        },
        Matchers::Character(_) => SearchConfig {
            state: t.to,
            pos: c.pos + 1,
            memory: Seq::empty(),
        },
    }
}

/// Whether the search, started in `c`, comes to an accepting state within
/// `fuel` moves.
pub open spec fn finds_within(g: Automaton, input: Seq<char>, c: SearchConfig, fuel: nat) -> bool
    decreases fuel,
{
    g.is_accepting(c.state) || (fuel > 0 && exists|k: int|
        #[trigger] explores(g, input, c, k) && finds_within(
            g,
            input,
            successor(g, c, k),
            (fuel - 1) as nat,
        ))
}

/// Whether the search, started in `c`, comes to an accepting state.
pub open spec fn finds(g: Automaton, input: Seq<char>, c: SearchConfig) -> bool {
    exists|fuel: nat| finds_within(g, input, c, fuel)
}

/// A search that finds an accepting state from a state that is not accepting
/// finds it from one of the successors.
pub proof fn lemma_finds_through_successor(g: Automaton, input: Seq<char>, c: SearchConfig)
    requires
        finds(g, input, c),
        !g.is_accepting(c.state),
    ensures
        exists|k: int| #[trigger] explores(g, input, c, k) && finds(g, input, successor(g, c, k)),
{
    let fuel = choose|fuel: nat| finds_within(g, input, c, fuel);
    let k = choose|k: int|
        #[trigger] explores(g, input, c, k) && finds_within(
            g,
            input,
            successor(g, c, k),
            (fuel - 1) as nat,
        );
    assert(finds_within(g, input, successor(g, c, k), (fuel - 1) as nat));
}

/// The moves out of one state, by source and target.
pub open spec fn edges_of(s: StateView) -> Seq<Edge> {
    Seq::new(s.transitions.len(), |k: int| (s.name, s.transitions[k].to))
}

/// The moves of the whole graph, state after state.
pub open spec fn edges(states: Seq<StateView>) -> Seq<Edge>
    decreases states.len(),
{
    if states.len() == 0 {
        Seq::empty()
    } else {
        edges(states.drop_last()) + edges_of(states.last())
    }
}

/// A memory holds no move twice, and only moves of the graph.
pub open spec fn memory_ok(g: Automaton, memory: Seq<Edge>) -> bool {
    &&& memory.no_duplicates()
    &&& forall|j: int| 0 <= j < memory.len() ==> edges(g.states).contains(#[trigger] memory[j])
}

/// What holds of every configuration that the search comes to.
pub open spec fn config_ok(g: Automaton, input: Seq<char>, c: SearchConfig) -> bool {
    &&& 0 <= c.pos <= input.len()
    &&& memory_ok(g, c.memory)
}

/// A bound on the number of moves that the search can still make along one
/// branch from `c`, plus one.
pub open spec fn depth(g: Automaton, input: Seq<char>, c: SearchConfig) -> int {
    (input.len() - c.pos) * (edges(g.states).len() + 1) + (edges(g.states).len()
        - c.memory.len()) + 1
}

/// A bound on the number of configurations in a tree of depth `d` in which
/// no node has more than `branching` children.
pub open spec fn weight(branching: nat, d: int) -> nat
    decreases d,
{
    if d <= 0 {
        1
    } else {
        (branching + 1) * weight(branching, d - 1)
    }
}

/// The measure of the search: the weights of the configurations that wait on
/// the stack.
pub open spec fn stack_weight(g: Automaton, input: Seq<char>, stack: Seq<SearchConfig>) -> nat
    decreases stack.len(),
{
    if stack.len() == 0 {
        0
    } else {
        stack_weight(g, input, stack.drop_last()) + weight(
            edges(g.states).len(),
            depth(g, input, stack.last()),
        )
    }
}

pub proof fn lemma_weight_positive(branching: nat, d: int)
    ensures
        weight(branching, d) >= 1,
    decreases d,
{
    if d > 0 {
        lemma_weight_positive(branching, d - 1);
        assert((branching + 1) * weight(branching, d - 1) >= 1) by (nonlinear_arith)
            requires
                weight(branching, d - 1) >= 1,
        ;
    }
}

pub proof fn lemma_weight_monotone(branching: nat, d1: int, d2: int)
    requires
        d1 <= d2,
    ensures
        weight(branching, d1) <= weight(branching, d2),
    decreases d2,
{
    lemma_weight_positive(branching, d1);
    if d2 > 0 && d1 < d2 {
        lemma_weight_monotone(branching, d1, d2 - 1);
        assert((branching + 1) * weight(branching, d2 - 1) >= weight(branching, d2 - 1))
            by (nonlinear_arith);
    }
}

/// Fewer than `branching + 1` children of depth `d - 1` weigh less than their
/// parent of depth `d`.
pub proof fn lemma_children_weigh_less(branching: nat, d: int, children: int)
    requires
        d >= 1,
        0 <= children <= branching,
    ensures
        children * weight(branching, d - 1) < weight(branching, d),
{
    lemma_weight_positive(branching, d - 1);
    let w = weight(branching, d - 1);
    assert(children * w < (branching + 1) * w) by (nonlinear_arith)
        requires
            0 <= children <= branching,
            w >= 1,
    ;
}

pub proof fn lemma_stack_weight_push(
    g: Automaton,
    input: Seq<char>,
    stack: Seq<SearchConfig>,
    c: SearchConfig,
)
    ensures
        stack_weight(g, input, stack.push(c)) == stack_weight(g, input, stack) + weight(
            edges(g.states).len(),
            depth(g, input, c),
        ),
{
    assert(stack.push(c).drop_last() =~= stack);
}

/// Every transition of every state is among the moves of the graph, so no
/// state has more transitions than the graph has moves.
pub proof fn lemma_edges_contains(states: Seq<StateView>, i: int, k: int)
    requires
        0 <= i < states.len(),
        0 <= k < states[i].transitions.len(),
    ensures
        edges(states).contains((states[i].name, states[i].transitions[k].to)),
        states[i].transitions.len() <= edges(states).len(),
    decreases states.len(),
{
    let front = edges(states.drop_last());
    let back = edges_of(states.last());
    if i == states.len() - 1 {
        assert((front + back)[front.len() + k] == back[k]);
    } else {
        lemma_edges_contains(states.drop_last(), i, k);
        let e = (states[i].name, states[i].transitions[k].to);
        let j = choose|j: int| 0 <= j < front.len() && front[j] == e;
        assert((front + back)[j] == e);
    }
}

/// A memory cannot hold more moves than the graph has.
pub proof fn lemma_memory_bound(g: Automaton, memory: Seq<Edge>)
    requires
        memory_ok(g, memory),
    ensures
        memory.len() <= edges(g.states).len(),
{
    let all = edges(g.states);
    memory.unique_seq_to_set();
    all.lemma_cardinality_of_set();
    assert(memory.to_set().subset_of(all.to_set())) by {
        assert forall|e: Edge| memory.to_set().contains(e) implies all.to_set().contains(e) by {
            let j = choose|j: int| 0 <= j < memory.len() && memory[j] == e;
            assert(all.contains(memory[j]));
        }
    }
    lemma_len_subset(memory.to_set(), all.to_set());
}

/// Following a transition keeps the configuration in order and brings the
/// search at least one move closer to the end of the branch.
pub proof fn lemma_successor(g: Automaton, input: Seq<char>, c: SearchConfig, k: int)
    requires
        g.names_distinct(),
        config_ok(g, input, c),
        explores(g, input, c, k),
    ensures
        config_ok(g, input, successor(g, c, k)),
        1 <= depth(g, input, successor(g, c, k)) < depth(g, input, c),
        g.transitions_of(c.state).len() <= edges(g.states).len(),
{
    let total = edges(g.states).len() as int;
    let next = successor(g, c, k);
    let t = g.transitions_of(c.state)[k];
    let i = g.index_of(c.state);
    lemma_index_of_name(g, c.state);
    lemma_edges_contains(g.states, i, k);
    lemma_memory_bound(g, c.memory);
    let rest = input.len() - c.pos;
    match t.matcher {
        Matchers::Epsilon => {
            let key = (c.state, t.to);
            assert(next.memory == c.memory.push(key));
            assert(next.memory.no_duplicates()) by {
                assert forall|a: int, b: int|
                    0 <= a < next.memory.len() && 0 <= b < next.memory.len() && a
                        != b implies next.memory[a] != next.memory[b] by {
                    if a == c.memory.len() {
                        assert(c.memory[b] != key);
                    } else if b == c.memory.len() {
                        assert(c.memory[a] != key);
                    }
                }
            }
            assert(memory_ok(g, next.memory));
            lemma_memory_bound(g, next.memory);
            assert(rest * (total + 1) >= 0) by (nonlinear_arith)
                requires
                    rest >= 0,
                    total >= 0,
            ;
        },
        Matchers::Character(_) => {
            assert(next.memory =~= Seq::<Edge>::empty());
            assert(rest * (total + 1) == (rest - 1) * (total + 1) + (total + 1))
                by (nonlinear_arith);
            assert((rest - 1) * (total + 1) >= 0) by (nonlinear_arith)
                requires
                    rest >= 1,
                    total >= 0,
            ;
        },
    }
}

/// The search starts at a point that the empty run reaches.
pub proof fn lemma_reaches_start(g: Automaton, input: Seq<char>)
    ensures
        g.reaches(input, SearchConfig::start(g).point()),
{
    let run = seq![SearchConfig::start(g).point()];
    assert(g.is_run(input, run) && run.last() == SearchConfig::start(g).point());
}

/// What the search follows is a transition of the automaton: a successor of
/// a configuration that a run reaches is reached by a run.
pub proof fn lemma_reaches_successor(g: Automaton, input: Seq<char>, c: SearchConfig, k: int)
    requires
        g.reaches(input, c.point()),
        explores(g, input, c, k),
    ensures
        g.reaches(input, successor(g, c, k).point()),
{
    let run = choose|run: Seq<Config>| #[trigger] g.is_run(input, run) && run.last() == c.point();
    let next = successor(g, c, k).point();
    let longer = run.push(next);
    assert(g.moves_by(input, c.point(), next, k));
    assert forall|i: int| 0 <= i < longer.len() - 1 implies g.moves(
        input,
        #[trigger] longer[i],
        longer[i + 1],
    ) by {
        if i < run.len() - 1 {
            assert(g.moves(input, run[i], run[i + 1]));
        }
    }
    assert(g.is_run(input, longer) && longer.last() == next);
}

/// An accepting state that a run reaches makes the automaton accept.
pub proof fn lemma_reached_accepting(g: Automaton, input: Seq<char>, c: Config)
    requires
        g.reaches(input, c),
        g.is_accepting(c.state),
    ensures
        g.accepts(input),
{
    let run = choose|run: Seq<Config>| #[trigger] g.is_run(input, run) && run.last() == c;
    assert(g.is_run(input, run) && g.is_accepting(run.last().state));
}

/// Whatever the search finds, a run of the automaton reaches.
pub proof fn lemma_search_sound(g: Automaton, input: Seq<char>, c: SearchConfig, fuel: nat)
    requires
        g.reaches(input, c.point()),
        finds_within(g, input, c, fuel),
    ensures
        g.accepts(input),
    decreases fuel,
{
    if g.is_accepting(c.state) {
        lemma_reached_accepting(g, input, c.point());
    } else {
        let k = choose|k: int|
            #[trigger] explores(g, input, c, k) && finds_within(
                g,
                input,
                successor(g, c, k),
                (fuel - 1) as nat,
            );
        lemma_reaches_successor(g, input, c, k);
        lemma_search_sound(g, input, successor(g, c, k), (fuel - 1) as nat);
    }
}

/// A run that passes twice through one point can be cut short: some run
/// with the same end passes through no point twice.
pub proof fn lemma_simple_run(g: Automaton, input: Seq<char>, run: Seq<Config>) -> (simple: Seq<
    Config,
>)
    requires
        g.is_run(input, run),
    ensures
        g.is_run(input, simple),
        simple.last() == run.last(),
        simple.no_duplicates(),
    decreases run.len(),
{
    if run.no_duplicates() {
        run
    } else {
        let (i, j) = choose|i: int, j: int|
            0 <= i < run.len() && 0 <= j < run.len() && i != j && run[i] == run[j];
        let a = if i < j { i } else { j };
        let b = if i < j { j } else { i };
        let shorter = run.subrange(0, a) + run.subrange(b, run.len() as int);
        assert(shorter.len() == a + run.len() - b);
        assert(shorter[0] == run[0]);
        assert(shorter.last() == run.last());
        assert forall|p: int| 0 <= p < shorter.len() - 1 implies g.moves(
            input,
            #[trigger] shorter[p],
            shorter[p + 1],
        ) by {
            if p + 1 < a {
                assert(g.moves(input, run[p], run[p + 1]));
            } else if p + 1 == a {
                assert(g.moves(input, run[a - 1], run[a - 1 + 1]));
                assert(shorter[p + 1] == run[b]);
            } else {
                let q = b + (p - a);
                assert(shorter[p] == run[q]);
                assert(shorter[p + 1] == run[q + 1]);
                assert(g.moves(input, run[q], run[q + 1]));
            }
        }
        lemma_simple_run(g, input, shorter)
    }
}

/// Along a path that passes through no point twice, the memory never holds
/// the search back: from point `i` on, with a memory of moves that left
/// earlier points of the path at the same offset, the search finds the
/// accepting end of the path.
pub proof fn lemma_simple_path_found(
    g: Automaton,
    input: Seq<char>,
    path: Seq<Config>,
    i: int,
    memory: Seq<Edge>,
)
    requires
        g.is_path(input, path),
        path.no_duplicates(),
        0 <= i < path.len(),
        g.is_accepting(path.last().state),
        forall|e: Edge| #[trigger]
            memory.contains(e) ==> exists|j: int|
                0 <= j < i && #[trigger] path[j] == (Config { state: e.0, pos: path[i].pos }),
    ensures
        finds_within(
            g,
            input,
            SearchConfig { state: path[i].state, pos: path[i].pos, memory },
            (path.len() - 1 - i) as nat,
        ),
    decreases path.len() - i,
{
    let c = SearchConfig { state: path[i].state, pos: path[i].pos, memory };
    if i < path.len() - 1 && !g.is_accepting(c.state) {
        assert(g.moves(input, path[i], path[i + 1]));
        let k = choose|k: int| #[trigger] g.moves_by(input, path[i], path[i + 1], k);
        let t = g.transitions_of(c.state)[k];
        let next = successor(g, c, k);
        assert(next.point() == path[i + 1]);
        match t.matcher {
            Matchers::Epsilon => {
                let key = (c.state, t.to);
                if memory.contains(key) {
                    let j = choose|j: int|
                        0 <= j < i && #[trigger] path[j] == (Config {
                            state: key.0,
                            pos: path[i].pos,
                        });
                    assert(path[j] == path[i]);
                }
                assert forall|e: Edge| #[trigger] next.memory.contains(e) implies exists|j: int|
                    0 <= j < i + 1 && #[trigger] path[j] == (Config {
                        state: e.0,
                        pos: path[i + 1].pos,
                    }) by {
                    if memory.contains(e) {
                        let j = choose|j: int|
                            0 <= j < i && #[trigger] path[j] == (Config {
                                state: e.0,
                                pos: path[i].pos,
                            });
                        assert(path[j] == (Config { state: e.0, pos: path[i + 1].pos }));
                    } else {
                        let m = choose|m: int| 0 <= m < next.memory.len() && next.memory[m] == e;
                        if m < memory.len() {
                            assert(memory[m] == e);
                        }
                        assert(e == key);
                        assert(path[i] == (Config { state: e.0, pos: path[i + 1].pos }));
                    }
                }
                lemma_simple_path_found(g, input, path, i + 1, next.memory);
            },
            Matchers::Character(_) => {
                assert forall|e: Edge| #[trigger] next.memory.contains(e) implies exists|j: int|
                    0 <= j < i + 1 && #[trigger] path[j] == (Config {
                        state: e.0,
                        pos: path[i + 1].pos,
                    }) by {
                    assert(next.memory.len() == 0);
                }
                lemma_simple_path_found(g, input, path, i + 1, next.memory);
            },
        }
        assert(explores(g, input, c, k));
        assert(finds_within(g, input, next, (path.len() - 1 - i - 1) as nat));
    }
}

/// The memory costs the search nothing: whenever some run of the automaton
/// ends in an accepting state, the search finds one.
pub proof fn lemma_search_complete(g: Automaton, input: Seq<char>)
    requires
        g.accepts(input),
    ensures
        finds(g, input, SearchConfig::start(g)),
{
    let run = choose|run: Seq<Config>|
        #[trigger] g.is_run(input, run) && g.is_accepting(run.last().state);
    let simple = lemma_simple_run(g, input, run);
    let nothing = Seq::<Edge>::empty();
    lemma_simple_path_found(g, input, simple, 0, nothing);
    assert(SearchConfig { state: simple[0].state, pos: simple[0].pos, memory: nothing }
        == SearchConfig::start(g));
}

/// The search decides acceptance: it finds an accepting state exactly when
/// some run of the automaton ends in one.
pub proof fn theorem_search_decides(g: Automaton, input: Seq<char>)
    ensures
        finds(g, input, SearchConfig::start(g)) <==> g.accepts(input),
{
    if g.accepts(input) {
        lemma_search_complete(g, input);
    }
    if finds(g, input, SearchConfig::start(g)) {
        let fuel = choose|fuel: nat| finds_within(g, input, SearchConfig::start(g), fuel);
        lemma_reaches_start(g, input);
        lemma_search_sound(g, input, SearchConfig::start(g), fuel);
    }
}

/// What the search puts on its stack when it leaves `c`: the successors by
/// the transitions `lo` up to `hi - 1` that it follows, the one of the
/// highest index first. The stack gives back last what was put first, so the
/// successor by the transition of highest priority is the next to be
/// explored.
pub open spec fn children(
    g: Automaton,
    input: Seq<char>,
    c: SearchConfig,
    lo: int,
    hi: int,
) -> Seq<SearchConfig>
    decreases hi - lo,
{
    if lo >= hi {
        Seq::empty()
    } else {
        let later = children(g, input, c, lo + 1, hi);
        if explores(g, input, c, lo) {
            later.push(successor(g, c, lo))
        } else {
            later
        }
    }
}

/// The children of a configuration are in order, reached by runs, nearer to
/// the end of their branch than their parent, no more than the transitions
/// they come from, and none that the search follows is left out.
pub proof fn lemma_children(g: Automaton, input: Seq<char>, c: SearchConfig, lo: int, hi: int)
    requires
        g.names_distinct(),
        config_ok(g, input, c),
        g.reaches(input, c.point()),
        0 <= lo <= hi <= g.transitions_of(c.state).len(),
    ensures
        children(g, input, c, lo, hi).len() <= hi - lo,
        forall|j: int|
            0 <= j < children(g, input, c, lo, hi).len() ==> {
                let child = #[trigger] children(g, input, c, lo, hi)[j];
                &&& config_ok(g, input, child)
                &&& g.reaches(input, child.point())
                &&& depth(g, input, child) <= depth(g, input, c) - 1
            },
        forall|k: int|
            lo <= k < hi && #[trigger] explores(g, input, c, k) ==> children(
                g,
                input,
                c,
                lo,
                hi,
            ).contains(successor(g, c, k)),
    decreases hi - lo,
{
    if lo < hi {
        lemma_children(g, input, c, lo + 1, hi);
        let later = children(g, input, c, lo + 1, hi);
        let all = children(g, input, c, lo, hi);
        if explores(g, input, c, lo) {
            lemma_successor(g, input, c, lo);
            lemma_reaches_successor(g, input, c, lo);
            assert(all.last() == successor(g, c, lo));
        }
        assert forall|j: int| 0 <= j < all.len() implies {
            let child = #[trigger] all[j];
            &&& config_ok(g, input, child)
            &&& g.reaches(input, child.point())
            &&& depth(g, input, child) <= depth(g, input, c) - 1
        } by {
            if j < later.len() {
                assert(all[j] == later[j]);
            }
        }
        assert forall|k: int| lo <= k < hi && #[trigger] explores(g, input, c, k) implies all.contains(
            successor(g, c, k),
        ) by {
            if k == lo {
                assert(all[all.len() - 1] == successor(g, c, k));
            } else {
                let j = choose|j: int| 0 <= j < later.len() && later[j] == successor(g, c, k);
                assert(all[j] == successor(g, c, k));
            }
        }
    }
}

/// Configurations of depth `d` at most, put on the stack, add no more to its
/// weight than their number times the weight of depth `d`.
pub proof fn lemma_stack_weight_append(
    g: Automaton,
    input: Seq<char>,
    stack: Seq<SearchConfig>,
    more: Seq<SearchConfig>,
    d: int,
)
    requires
        forall|j: int| 0 <= j < more.len() ==> depth(g, input, #[trigger] more[j]) <= d,
    ensures
        stack_weight(g, input, stack + more) <= stack_weight(g, input, stack) + more.len() * weight(
            edges(g.states).len(),
            d,
        ),
    decreases more.len(),
{
    let w = weight(edges(g.states).len(), d);
    if more.len() == 0 {
        assert(stack + more =~= stack);
        assert(more.len() * w == 0) by (nonlinear_arith)
            requires
                more.len() == 0,
        ;
    } else {
        let fewer = more.drop_last();
        lemma_stack_weight_append(g, input, stack, fewer, d);
        assert((stack + more).drop_last() =~= stack + fewer);
        assert((stack + more).last() == more.last());
        lemma_weight_monotone(edges(g.states).len(), depth(g, input, more.last()), d);
        assert(more.len() * w == fewer.len() * w + w) by (nonlinear_arith)
            requires
                more.len() == fewer.len() + 1,
        ;
    }
}

/// A configuration in order has a depth of one at least.
pub proof fn lemma_depth_positive(g: Automaton, input: Seq<char>, c: SearchConfig)
    requires
        config_ok(g, input, c),
    ensures
        depth(g, input, c) >= 1,
{
    lemma_memory_bound(g, c.memory);
    let rest = input.len() - c.pos;
    let total = edges(g.states).len() as int;
    assert(rest * (total + 1) >= 0) by (nonlinear_arith)
        requires
            rest >= 0,
            total >= 0,
    ;
}

/// One step of the search makes the stack lighter: the configuration that
/// leaves it weighs more than all its children together.
pub proof fn lemma_step_decreases(
    g: Automaton,
    input: Seq<char>,
    rest: Seq<SearchConfig>,
    c: SearchConfig,
)
    requires
        g.names_distinct(),
        config_ok(g, input, c),
        g.reaches(input, c.point()),
    ensures
        stack_weight(
            g,
            input,
            rest + children(g, input, c, 0, g.transitions_of(c.state).len() as int),
        ) < stack_weight(g, input, rest.push(c)),
{
    let total = edges(g.states).len();
    let n = g.transitions_of(c.state).len() as int;
    let kids = children(g, input, c, 0, n);
    let d = depth(g, input, c);
    lemma_children(g, input, c, 0, n);
    lemma_stack_weight_append(g, input, rest, kids, d - 1);
    lemma_stack_weight_push(g, input, rest, c);
    lemma_depth_positive(g, input, c);
    lemma_weight_positive(total, d - 1);
    if n > 0 {
        lemma_index_of_name(g, c.state);
        lemma_edges_contains(g.states, g.index_of(c.state), 0);
    }
    let w = weight(total, d - 1);
    assert(kids.len() * w <= n * w) by (nonlinear_arith)
        requires
            0 <= kids.len() <= n,
            w >= 1,
    ;
    lemma_children_weigh_less(total, d, n);
}

} // verus!
