//! Checks of a state graph: every state can be left or is terminal, and
//! every state but the first can be reached.

use vstd::prelude::*;
use crate::ast::SpecState;
use crate::text::strings_view;
use crate::graph::{
    StateGraph, EdgeView, graph_nodes, graph_edges, count_edges, edge_touches, graph_node_count,
    graph_node_weight, graph_count_edges, state_names, last_index, lemma_last_index, spec_edges,
    terminal_indices,
};

verus! {

/// The validation rules of a state graph.
pub struct Validator;

pub open spec fn deadlock_message(name: Seq<char>) -> Seq<char> {
    "Deadlock detected: The state '"@ + name
        + "' has no outgoing transitions and is not marked as 'terminal'."@
}

pub open spec fn orphan_message(name: Seq<char>) -> Seq<char> {
    "Orphan state detected: The state '"@ + name + "' is inaccessible. No transitions point to it."@
}

/// The findings for node `i`: a deadlock when no edge leaves it and it is not
/// terminal, then an orphan when no edge enters it and it is not node 0.
pub open spec fn node_errors(
    nodes: Seq<Seq<char>>,
    edges: Seq<EdgeView>,
    terminals: Seq<usize>,
    i: int,
) -> Seq<Seq<char>> {
    let deadlock = count_edges(edges, i as nat, true) == 0 && !terminals.contains(i as usize);
    let orphan = count_edges(edges, i as nat, false) == 0 && i != 0;
    (if deadlock { seq![deadlock_message(nodes[i])] } else { Seq::empty() }) + (if orphan {
        seq![orphan_message(nodes[i])]
    } else {
        Seq::empty()
    })
}

/// The findings for the first `n` nodes, node by node.
pub open spec fn graph_errors(
    nodes: Seq<Seq<char>>,
    edges: Seq<EdgeView>,
    terminals: Seq<usize>,
    n: int,
) -> Seq<Seq<char>>
    decreases n,
{
    if n <= 0 {
        Seq::empty()
    } else {
        graph_errors(nodes, edges, terminals, n - 1) + node_errors(nodes, edges, terminals, n - 1)
    }
}

/// The findings for a whole state graph.
pub open spec fn spec_validation_errors(g: StateGraph) -> Seq<Seq<char>> {
    graph_errors(
        graph_nodes(g.graph),
        graph_edges(g.graph),
        g.terminal_nodes@,
        graph_nodes(g.graph).len() as int,
    )
}

fn contains_index(v: &Vec<usize>, x: usize) -> (r: bool)
    ensures
        r == v@.contains(x),
{
    let mut i: usize = 0;
    while i < v.len()
        invariant
            0 <= i <= v@.len(),
            forall|k: int| 0 <= k < i ==> v@[k] != x,
        decreases v@.len() - i,
    {
        if v[i] == x {
            return true;
        }
        i = i + 1;
    }
    false
}

impl Validator {
    /// All findings of the graph, in node order; `Ok` when there are none.
    pub fn validate(state_graph: &StateGraph) -> (r: Result<(), Vec<String>>)
        ensures
            match r {
                Ok(()) => spec_validation_errors(*state_graph) == Seq::<Seq<char>>::empty(),
                Err(errors) => strings_view(errors@) == spec_validation_errors(*state_graph)
                    && errors@.len() > 0,
            },
    {
        let ghost nodes = graph_nodes(state_graph.graph);
        let ghost edges = graph_edges(state_graph.graph);
        let ghost terminals = state_graph.terminal_nodes@;
        let mut errors: Vec<String> = Vec::new();
        let n = graph_node_count(&state_graph.graph);
        let mut i: usize = 0;
        assert(strings_view(errors@) =~= Seq::<Seq<char>>::empty());
        while i < n
            invariant
                n == nodes.len(),
                nodes == graph_nodes(state_graph.graph),
                edges == graph_edges(state_graph.graph),
                terminals == state_graph.terminal_nodes@,
                i <= n,
                strings_view(errors@) == graph_errors(nodes, edges, terminals, i as int),
            decreases n - i,
        {
            let state_name = graph_node_weight(&state_graph.graph, i);
            let is_terminal = contains_index(&state_graph.terminal_nodes, i);
            let has_outgoing_edges = graph_count_edges(&state_graph.graph, i, true) > 0;
            let has_ingoing_edges = graph_count_edges(&state_graph.graph, i, false) > 0;
            let ghost before = strings_view(errors@);
            if !has_outgoing_edges && !is_terminal {
                let mut msg = "Deadlock detected: The state '".to_owned();
                msg.append(state_name.as_str());
                msg.append("' has no outgoing transitions and is not marked as 'terminal'.");
                errors.push(msg);
            }
            let ghost middle = strings_view(errors@);
            let is_first_node = i == 0;
            if !has_ingoing_edges && !is_first_node {
                let mut msg = "Orphan state detected: The state '".to_owned();
                msg.append(state_name.as_str());
                msg.append("' is inaccessible. No transitions point to it.");
                errors.push(msg);
            }
            assert(strings_view(errors@) =~= before + node_errors(nodes, edges, terminals, i as int));
            i = i + 1;
        }
        if errors.len() == 0 {
            Ok(())
        } else {
            Err(errors)
        }
    }
}

// ---------------------------------------------------------------------------
// What the findings mean for a program
// ---------------------------------------------------------------------------

/// No two states share a name.
pub open spec fn distinct_names(states: Seq<SpecState>) -> bool {
    forall|a: int, b: int|
        0 <= a < b < states.len() ==> #[trigger] states[a].name != #[trigger] states[b].name
}

/// Some transition of some state leads to `name`.
pub open spec fn is_targeted(states: Seq<SpecState>, name: Seq<char>) -> bool {
    exists|i: int, j: int|
        0 <= i < states.len() && 0 <= j < states[i].transitions.len()
            && #[trigger] states[i].transitions[j].target == name
}

/// The findings for state `i`, read off the program: a deadlock when it has no
/// transition and is not terminal, an orphan when it is not the first state
/// and no transition leads to it.
pub open spec fn state_errors(states: Seq<SpecState>, i: int) -> Seq<Seq<char>> {
    let st = states[i];
    (if st.transitions.len() == 0 && !st.is_terminal {
        seq![deadlock_message(st.name)]
    } else {
        Seq::empty()
    }) + (if i != 0 && !is_targeted(states, st.name) {
        seq![orphan_message(st.name)]
    } else {
        Seq::empty()
    })
}

/// The findings for the first `n` states of a program, state by state.
pub open spec fn program_errors(states: Seq<SpecState>, n: int) -> Seq<Seq<char>>
    decreases n,
{
    if n <= 0 {
        Seq::empty()
    } else {
        program_errors(states, n - 1) + state_errors(states, n - 1)
    }
}

/// A position of a transition: state `i`, transition `j`.
pub open spec fn valid_pos(states: Seq<SpecState>, i: int, j: int) -> bool {
    0 <= i < states.len() && 0 <= j < states[i].transitions.len()
}

/// Position `(i2, j2)` comes at or after `(i, j)` in source order.
pub open spec fn pos_from(i: int, j: int, i2: int, j2: int) -> bool {
    i2 > i || (i2 == i && j2 >= j)
}

/// The edge made for transition `j` of state `i`.
pub open spec fn edge_at(states: Seq<SpecState>, i: int, j: int) -> EdgeView {
    let names = state_names(states);
    let t = states[i].transitions[j];
    (last_index(names, states[i].name).unwrap(), last_index(names, t.target).unwrap(), t.event)
}

/// What the edges `es` built from position `(i, j)` on, after `acc`, hold.
pub open spec fn edges_content(
    states: Seq<SpecState>,
    i: int,
    j: int,
    acc: Seq<EdgeView>,
    es: Seq<EdgeView>,
) -> bool {
    &&& acc.len() <= es.len()
    &&& forall|k: int| 0 <= k < acc.len() ==> es[k] == acc[k]
    &&& forall|k: int| acc.len() <= k < es.len() ==> edge_origin(states, i, j, #[trigger] es[k])
    &&& forall|i2: int, j2: int|
        #![trigger edge_at(states, i2, j2)]
        valid_pos(states, i2, j2) && pos_from(i, j, i2, j2) ==> es.contains(edge_at(states, i2, j2))
            && last_index(state_names(states), states[i2].transitions[j2].target) is Some
}

/// Edge `e` is made for some transition at or after position `(i, j)`.
pub open spec fn edge_origin(states: Seq<SpecState>, i: int, j: int, e: EdgeView) -> bool {
    exists|i2: int, j2: int|
        #![trigger edge_at(states, i2, j2)]
        valid_pos(states, i2, j2) && pos_from(i, j, i2, j2) && e == edge_at(states, i2, j2)
}

proof fn lemma_edge_origin_widen(states: Seq<SpecState>, i: int, j: int, i1: int, j1: int, e: EdgeView)
    requires
        edge_origin(states, i1, j1, e),
        pos_from(i, j, i1, j1),
    ensures
        edge_origin(states, i, j, e),
{
    let (i2, j2) = choose|i2: int, j2: int|
        #![trigger edge_at(states, i2, j2)]
        valid_pos(states, i2, j2) && pos_from(i1, j1, i2, j2) && e == edge_at(states, i2, j2);
    assert(pos_from(i, j, i2, j2));
}

proof fn lemma_edges_content(states: Seq<SpecState>, i: int, j: int, acc: Seq<EdgeView>)
    requires
        0 <= i,
        0 <= j,
    ensures
        spec_edges(states, i, j, acc) matches Ok(es) ==> edges_content(states, i, j, acc, es),
    decreases states.len() - i, states[i].transitions.len() - j,
{
    let names = state_names(states);
    if i >= states.len() {
        assert(spec_edges(states, i, j, acc) == Ok::<Seq<EdgeView>, Seq<char>>(acc));
        assert(edges_content(states, i, j, acc, acc));
    } else if j >= states[i].transitions.len() {
        lemma_edges_content(states, i + 1, 0, acc);
        assert(spec_edges(states, i, j, acc) == spec_edges(states, i + 1, 0, acc));
        if let Ok(es) = spec_edges(states, i, j, acc) {
            assert(edges_content(states, i + 1, 0, acc, es));
            assert forall|k2: int| acc.len() <= k2 < es.len() implies edge_origin(
                states,
                i,
                j,
                #[trigger] es[k2],
            ) by {
                lemma_edge_origin_widen(states, i, j, i + 1, 0, es[k2]);
            }
            assert forall|i2: int, j2: int|
                #![trigger edge_at(states, i2, j2)]
                valid_pos(states, i2, j2) && pos_from(i, j, i2, j2) implies es.contains(
                    edge_at(states, i2, j2),
                ) && last_index(names, states[i2].transitions[j2].target) is Some by {
                assert(pos_from(i + 1, 0, i2, j2));
            }
            assert(edges_content(states, i, j, acc, es));
        }
    } else {
        let t = states[i].transitions[j];
        if let Some(k) = last_index(names, t.target) {
            let e = edge_at(states, i, j);
            let acc2 = acc.push(e);
            lemma_edges_content(states, i, j + 1, acc2);
            if let Ok(es) = spec_edges(states, i, j, acc) {
                assert(es == spec_edges(states, i, j + 1, acc2)->Ok_0);
                assert(edges_content(states, i, j + 1, acc2, es));
                assert(es[acc.len() as int] == acc2[acc.len() as int]);
                assert forall|k2: int| 0 <= k2 < acc.len() implies es[k2] == acc[k2] by {
                    assert(es[k2] == acc2[k2]);
                }
                assert forall|k2: int| acc.len() <= k2 < es.len() implies edge_origin(
                    states,
                    i,
                    j,
                    #[trigger] es[k2],
                ) by {
                    if k2 == acc.len() {
                        assert(valid_pos(states, i, j) && pos_from(i, j, i, j) && es[k2]
                            == edge_at(states, i, j));
                    } else {
                        lemma_edge_origin_widen(states, i, j, i, j + 1, es[k2]);
                    }
                }
                assert forall|i2: int, j2: int|
                    #![trigger edge_at(states, i2, j2)]
                    valid_pos(states, i2, j2) && pos_from(i, j, i2, j2) implies es.contains(
                        edge_at(states, i2, j2),
                    ) && last_index(names, states[i2].transitions[j2].target) is Some by {
                    if i2 == i && j2 == j {
                        assert(es[acc.len() as int] == edge_at(states, i2, j2));
                    } else {
                        assert(pos_from(i, j + 1, i2, j2));
                    }
                }
                assert(edges_content(states, i, j, acc, es));
            }
        }
    }
}

proof fn lemma_edges_ok(states: Seq<SpecState>, i: int, j: int, acc: Seq<EdgeView>)
    requires
        0 <= i,
        0 <= j,
        forall|i2: int, j2: int|
            #![trigger states[i2].transitions[j2]]
            valid_pos(states, i2, j2) && pos_from(i, j, i2, j2) ==> last_index(
                state_names(states),
                states[i2].transitions[j2].target,
            ) is Some,
    ensures
        spec_edges(states, i, j, acc) is Ok,
    decreases states.len() - i, states[i].transitions.len() - j,
{
    let names = state_names(states);
    if i >= states.len() {
    } else if j >= states[i].transitions.len() {
        lemma_edges_ok(states, i + 1, 0, acc);
    } else {
        let t = states[i].transitions[j];
        assert(valid_pos(states, i, j) && pos_from(i, j, i, j));
        let e = edge_at(states, i, j);
        lemma_edges_ok(states, i, j + 1, acc.push(e));
    }
}

proof fn lemma_count_edges(edges: Seq<EdgeView>, x: nat, outgoing: bool)
    ensures
        count_edges(edges, x, outgoing) > 0 <==> exists|k: int|
            0 <= k < edges.len() && edge_touches(#[trigger] edges[k], x, outgoing),
    decreases edges.len(),
{
    if edges.len() > 0 {
        lemma_count_edges(edges.drop_last(), x, outgoing);
        if exists|k: int| 0 <= k < edges.len() && edge_touches(#[trigger] edges[k], x, outgoing) {
            let k = choose|k: int| 0 <= k < edges.len() && edge_touches(#[trigger] edges[k], x, outgoing);
            if k < edges.len() - 1 {
                assert(edges.drop_last()[k] == edges[k]);
            }
        }
        if exists|k: int|
            0 <= k < edges.drop_last().len() && edge_touches(#[trigger] edges.drop_last()[k], x, outgoing) {
            let k = choose|k: int|
                0 <= k < edges.drop_last().len() && edge_touches(#[trigger] edges.drop_last()[k], x, outgoing);
            assert(edges[k] == edges.drop_last()[k]);
        }
    }
}

proof fn lemma_terminal_indices(states: Seq<SpecState>, n: int)
    requires
        0 <= n <= states.len(),
        states.len() <= usize::MAX,
    ensures
        forall|k: int|
            0 <= k < terminal_indices(states, n).len() ==> (#[trigger] terminal_indices(states, n)[k]) < n,
        forall|i: int|
            0 <= i < n ==> (terminal_indices(states, n).contains(i as usize) <==> #[trigger] states[i].is_terminal),
    decreases n,
{
    if n > 0 {
        lemma_terminal_indices(states, n - 1);
        let prev = terminal_indices(states, n - 1);
        if states[n - 1].is_terminal {
            let cur = prev.push((n - 1) as usize);
            assert forall|i: int| 0 <= i < n implies (cur.contains(i as usize) <==> #[trigger] states[i].is_terminal) by {
                if i < n - 1 {
                    if cur.contains(i as usize) {
                        let k = choose|k: int| 0 <= k < cur.len() && cur[k] == i as usize;
                        if k < prev.len() {
                            assert(prev[k] == cur[k]);
                        }
                    }
                    if prev.contains(i as usize) {
                        let k = choose|k: int| 0 <= k < prev.len() && prev[k] == i as usize;
                        assert(cur[k] == prev[k]);
                    }
                } else {
                    assert(cur[prev.len() as int] == (n - 1) as usize);
                }
            }
        } else {
            assert forall|i: int| 0 <= i < n implies (prev.contains(i as usize) <==> #[trigger] states[i].is_terminal) by {
                if i == n - 1 && prev.contains(i as usize) {
                    let k = choose|k: int| 0 <= k < prev.len() && prev[k] == i as usize;
                    assert(prev[k] < n - 1);
                }
            }
        }
    }
}

proof fn lemma_distinct_last_index(states: Seq<SpecState>, i: int)
    requires
        distinct_names(states),
        0 <= i < states.len(),
    ensures
        last_index(state_names(states), states[i].name) == Some(i as nat),
{
    let names = state_names(states);
    lemma_last_index(names, states[i].name);
    assert(names[i] == states[i].name);
    let k = last_index(names, states[i].name).unwrap() as int;
    if k != i {
        assert(names[k] == states[k].name);
        if k < i {
            assert(names[i] != states[i].name);
        }
    }
}

proof fn lemma_node_errors(states: Seq<SpecState>, es: Seq<EdgeView>, i: int)
    requires
        distinct_names(states),
        spec_edges(states, 0, 0, Seq::empty()) == Ok::<Seq<EdgeView>, Seq<char>>(es),
        0 <= i < states.len(),
        states.len() <= usize::MAX,
    ensures
        node_errors(
            state_names(states),
            es,
            terminal_indices(states, states.len() as int),
            i,
        ) == state_errors(states, i),
{
    let names = state_names(states);
    let n = states.len() as int;
    lemma_edges_content(states, 0, 0, Seq::empty());
    lemma_terminal_indices(states, n);
    lemma_count_edges(es, i as nat, true);
    lemma_count_edges(es, i as nat, false);
    lemma_distinct_last_index(states, i);
    assert(names[i] == states[i].name);
    // leaving edges
    if count_edges(es, i as nat, true) > 0 {
        let k = choose|k: int| 0 <= k < es.len() && edge_touches(#[trigger] es[k], i as nat, true);
        assert(edge_origin(states, 0, 0, es[k]));
        let (i2, j2) = choose|i2: int, j2: int|
            #![trigger edge_at(states, i2, j2)]
            valid_pos(states, i2, j2) && pos_from(0, 0, i2, j2) && es[k] == edge_at(states, i2, j2);
        lemma_distinct_last_index(states, i2);
        assert(states[i].transitions.len() > 0);
    }
    if states[i].transitions.len() > 0 {
        assert(valid_pos(states, i, 0) && pos_from(0, 0, i, 0));
        let e = edge_at(states, i, 0);
        assert(es.contains(e));
        let k = choose|k: int| 0 <= k < es.len() && es[k] == e;
        assert(edge_touches(es[k], i as nat, true));
    }
    // entering edges
    if count_edges(es, i as nat, false) > 0 {
        let k = choose|k: int| 0 <= k < es.len() && edge_touches(#[trigger] es[k], i as nat, false);
        assert(edge_origin(states, 0, 0, es[k]));
        let (i2, j2) = choose|i2: int, j2: int|
            #![trigger edge_at(states, i2, j2)]
            valid_pos(states, i2, j2) && pos_from(0, 0, i2, j2) && es[k] == edge_at(states, i2, j2);
        let target = states[i2].transitions[j2].target;
        lemma_last_index(names, target);
        assert(names[i] == target);
        assert(is_targeted(states, states[i].name));
    }
    if is_targeted(states, states[i].name) {
        let (i2, j2) = choose|i2: int, j2: int|
            0 <= i2 < states.len() && 0 <= j2 < states[i2].transitions.len()
                && #[trigger] states[i2].transitions[j2].target == states[i].name;
        assert(valid_pos(states, i2, j2) && pos_from(0, 0, i2, j2));
        let e = edge_at(states, i2, j2);
        assert(es.contains(e));
        let k = choose|k: int| 0 <= k < es.len() && es[k] == e;
        assert(edge_touches(es[k], i as nat, false));
    }
}

/// The findings of `Validator::validate` on the graph that `StateGraph::from_ast`
/// builds for a program whose state names are distinct are the program's own
/// findings: a deadlock for each state with no transition that is not
/// terminal, and an orphan for each state after the first that no transition
/// leads to, in state order.
pub proof fn lemma_validation_matches_program(states: Seq<SpecState>)
    requires
        distinct_names(states),
        spec_edges(states, 0, 0, Seq::empty()) is Ok,
        states.len() <= usize::MAX,
    ensures
        graph_errors(
            state_names(states),
            spec_edges(states, 0, 0, Seq::empty())->Ok_0,
            terminal_indices(states, states.len() as int),
            states.len() as int,
        ) == program_errors(states, states.len() as int),
{
    let es = spec_edges(states, 0, 0, Seq::empty())->Ok_0;
    lemma_graph_errors(states, es, states.len() as int);
}

proof fn lemma_graph_errors(states: Seq<SpecState>, es: Seq<EdgeView>, m: int)
    requires
        distinct_names(states),
        spec_edges(states, 0, 0, Seq::empty()) == Ok::<Seq<EdgeView>, Seq<char>>(es),
        0 <= m <= states.len(),
        states.len() <= usize::MAX,
    ensures
        graph_errors(
            state_names(states),
            es,
            terminal_indices(states, states.len() as int),
            m,
        ) == program_errors(states, m),
    decreases m,
{
    if m > 0 {
        lemma_graph_errors(states, es, m - 1);
        lemma_node_errors(states, es, m - 1);
    }
}

/// `StateGraph::from_ast` builds a graph exactly when every transition leads
/// to the name of some state.
pub proof fn lemma_graph_built_iff_targets_exist(states: Seq<SpecState>)
    ensures
        spec_edges(states, 0, 0, Seq::empty()) is Ok <==> forall|i: int, j: int|
            valid_pos(states, i, j) ==> exists|k: int|
                0 <= k < states.len() && #[trigger] states[k].name
                    == states[i].transitions[j].target,
{
    let names = state_names(states);
    if spec_edges(states, 0, 0, Seq::empty()) is Ok {
        lemma_edges_content(states, 0, 0, Seq::empty());
        assert forall|i: int, j: int| valid_pos(states, i, j) implies exists|k: int|
            0 <= k < states.len() && #[trigger] states[k].name
                == states[i].transitions[j].target by {
            assert(pos_from(0, 0, i, j));
            let e = edge_at(states, i, j);
            let t = states[i].transitions[j].target;
            lemma_last_index(names, t);
            let k = last_index(names, t).unwrap() as int;
            assert(names[k] == states[k].name);
        }
    } else {
        if forall|i: int, j: int|
            valid_pos(states, i, j) ==> exists|k: int|
                0 <= k < states.len() && #[trigger] states[k].name
                    == states[i].transitions[j].target {
            assert forall|i2: int, j2: int|
                #![trigger states[i2].transitions[j2]]
                valid_pos(states, i2, j2) && pos_from(0, 0, i2, j2) implies last_index(
                    names,
                    states[i2].transitions[j2].target,
                ) is Some by {
                let t = states[i2].transitions[j2].target;
                let k = choose|k: int| 0 <= k < states.len() && #[trigger] states[k].name == t;
                lemma_last_index(names, t);
                assert(names[k] == t);
            }
            lemma_edges_ok(states, 0, 0, Seq::empty());
        }
    }
}

} // verus!
