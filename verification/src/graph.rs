//! The state graph of a program, held in a `petgraph` directed graph: one
//! node per state (weighted by its name), one edge per transition (weighted
//! by its event).

use vstd::prelude::*;
use petgraph::graph::{Graph, NodeIndex};
use petgraph::{Directed, Direction};
use crate::ast::{TytoProgram, State, SpecState, SpecTransition, states_view};

verus! {

#[verifier::external_type_specification]
#[verifier::external_body]
#[verifier::reject_recursive_types(N)]
#[verifier::reject_recursive_types(E)]
#[verifier::reject_recursive_types(Ty)]
#[verifier::reject_recursive_types(Ix)]
pub struct ExGraph<N, E, Ty, Ix>(Graph<N, E, Ty, Ix>);

#[verifier::external_type_specification]
#[verifier::external_body]
pub struct ExDirected(Directed);

/// An edge as the contracts see it: (source node, target node, weight).
pub type EdgeView = (nat, nat, Seq<char>);

/// The node weights of a graph, in node-index order.
pub uninterp spec fn graph_nodes(g: Graph<String, String>) -> Seq<Seq<char>>;

/// The edges of a graph, in edge-index order.
pub uninterp spec fn graph_edges(g: Graph<String, String>) -> Seq<EdgeView>;

/// `Graph::new`: a directed graph with no nodes and no edges.
#[verifier::external_body]
fn graph_new() -> (g: Graph<String, String>)
    ensures
        graph_nodes(g) == Seq::<Seq<char>>::empty(),
        graph_edges(g) == Seq::<EdgeView>::empty(),
{
    Graph::new()
}

/// `Graph::add_node`: appends a node and returns its index, the former node
/// count. It panics once the count reaches `u32::MAX`, which `requires` rules out.
#[verifier::external_body]
fn graph_add_node(g: &mut Graph<String, String>, weight: String) -> (idx: usize)
    requires
        graph_nodes(*old(g)).len() < u32::MAX,
    ensures
        idx == graph_nodes(*old(g)).len(),
        graph_nodes(*final(g)) == graph_nodes(*old(g)).push(weight@),
        graph_edges(*final(g)) == graph_edges(*old(g)),
{
    g.add_node(weight).index()
}

/// `Graph::add_edge`: appends an edge between two existing nodes. It panics
/// on a missing node or once the edge count reaches `u32::MAX`, which
/// `requires` rules out.
#[verifier::external_body]
fn graph_add_edge(g: &mut Graph<String, String>, a: usize, b: usize, weight: String)
    requires
        a < graph_nodes(*old(g)).len(),
        b < graph_nodes(*old(g)).len(),
        graph_edges(*old(g)).len() < u32::MAX,
    ensures
        graph_nodes(*final(g)) == graph_nodes(*old(g)),
        graph_edges(*final(g)) == graph_edges(*old(g)).push((a as nat, b as nat, weight@)),
{
    g.add_edge(NodeIndex::new(a), NodeIndex::new(b), weight);
}

/// `Graph::node_count`.
#[verifier::external_body]
pub(crate) fn graph_node_count(g: &Graph<String, String>) -> (n: usize)
    ensures
        n == graph_nodes(*g).len(),
{
    g.node_count()
}

/// Indexing a graph by a node: the node's weight.
#[verifier::external_body]
pub(crate) fn graph_node_weight(g: &Graph<String, String>, i: usize) -> (w: &String)
    requires
        i < graph_nodes(*g).len(),
    ensures
        w@ == graph_nodes(*g)[i as int],
{
    &g[NodeIndex::new(i)]
}

/// Whether node `i` is the source (`outgoing`) or the target (otherwise) of `e`.
pub open spec fn edge_touches(e: EdgeView, i: nat, outgoing: bool) -> bool {
    if outgoing {
        e.0 == i
    } else {
        e.1 == i
    }
}

/// The number of edges of the graph whose source (`outgoing`) or whose
/// target (otherwise) is node `i`.
pub open spec fn count_edges(edges: Seq<EdgeView>, i: nat, outgoing: bool) -> nat
    decreases edges.len(),
{
    if edges.len() == 0 {
        0
    } else {
        let here: nat = if edge_touches(edges.last(), i, outgoing) {
            1
        } else {
            0
        };
        count_edges(edges.drop_last(), i, outgoing) + here
    }
}

/// `Graph::edges_directed(i, direction).count()`: on a directed graph the
/// iterator yields each edge leaving node `i` (`Outgoing`) or each edge
/// entering it (`Incoming`) once.
#[verifier::external_body]
pub(crate) fn graph_count_edges(g: &Graph<String, String>, i: usize, outgoing: bool) -> (n: usize)
    requires
        i < graph_nodes(*g).len(),
    ensures
        n == count_edges(graph_edges(*g), i as nat, outgoing),
{
    let dir = if outgoing {
        Direction::Outgoing
    } else {
        Direction::Incoming
    };
    g.edges_directed(NodeIndex::new(i), dir).count()
}

// ---------------------------------------------------------------------------
// The graph of a program
// ---------------------------------------------------------------------------

/// A program's states as graph nodes: the graph, the node of each state name,
/// and the nodes of the terminal states.
#[derive(Debug)]
pub struct StateGraph {
    pub graph: Graph<String, String>,
    /// Each state name with the node of the last state so named.
    pub indices: Vec<(String, usize)>,
    pub terminal_nodes: Vec<usize>,
}

pub open spec fn state_names(states: Seq<SpecState>) -> Seq<Seq<char>> {
    states.map_values(|s: SpecState| s.name)
}

/// The index of the last entry of `names` equal to `name`.
pub open spec fn last_index(names: Seq<Seq<char>>, name: Seq<char>) -> Option<nat>
    decreases names.len(),
{
    if names.len() == 0 {
        None
    } else if names.last() == name {
        Some((names.len() - 1) as nat)
    } else {
        last_index(names.drop_last(), name)
    }
}

/// The name table after inserting the first `n` names in order, a later
/// occurrence of a name overriding an earlier one: each distinct name once,
/// with the index of its last occurrence, ordered by that index.
pub open spec fn index_entries(names: Seq<Seq<char>>, n: int) -> Seq<(Seq<char>, nat)>
    decreases n,
{
    if n <= 0 {
        Seq::empty()
    } else {
        let es = index_entries(names, n - 1);
        if last_index(names, names[n - 1]) == Some((n - 1) as nat) {
            es.push((names[n - 1], (n - 1) as nat))
        } else {
            es
        }
    }
}

/// The nodes of the terminal states among the first `n`.
pub open spec fn terminal_indices(states: Seq<SpecState>, n: int) -> Seq<usize>
    decreases n,
{
    if n <= 0 {
        Seq::empty()
    } else if states[n - 1].is_terminal {
        terminal_indices(states, n - 1).push((n - 1) as usize)
    } else {
        terminal_indices(states, n - 1)
    }
}

/// The message for a transition to a state that does not exist.
pub open spec fn missing_target_message(state: Seq<char>, target: Seq<char>) -> Seq<char> {
    "Semantic Error: The state '"@ + state + "' attempts to transition to a non-existent state '"@
        + target + "'."@
}

/// The edges for the transitions from transition `j` of state `i` on, after
/// `acc`; an edge leaves the last state named like the source state and
/// enters the last state named like the target. The first transition to an
/// unknown state makes the error.
pub open spec fn spec_edges(
    states: Seq<SpecState>,
    i: int,
    j: int,
    acc: Seq<EdgeView>,
) -> Result<Seq<EdgeView>, Seq<char>>
    decreases states.len() - i, states[i].transitions.len() - j,
{
    if i < 0 || i >= states.len() {
        Ok(acc)
    } else if j < 0 || j >= states[i].transitions.len() {
        spec_edges(states, i + 1, 0, acc)
    } else {
        let names = state_names(states);
        let t = states[i].transitions[j];
        match last_index(names, t.target) {
            None => Err(missing_target_message(states[i].name, t.target)),
            Some(k) => spec_edges(
                states,
                i,
                j + 1,
                acc.push((last_index(names, states[i].name).unwrap(), k, t.event)),
            ),
        }
    }
}

/// The number of transitions of the first `n` states.
pub open spec fn transitions_before(states: Seq<SpecState>, n: int) -> nat
    decreases n,
{
    if n <= 0 {
        0
    } else {
        transitions_before(states, n - 1) + states[n - 1].transitions.len()
    }
}

pub open spec fn entries_view(es: Seq<(String, usize)>) -> Seq<(Seq<char>, nat)> {
    es.map_values(|e: (String, usize)| (e.0@, e.1 as nat))
}

/// The value of the last entry named `name`.
pub open spec fn entry_lookup(es: Seq<(Seq<char>, nat)>, name: Seq<char>) -> Option<nat>
    decreases es.len(),
{
    if es.len() == 0 {
        None
    } else if es.last().0 == name {
        Some(es.last().1)
    } else {
        entry_lookup(es.drop_last(), name)
    }
}

pub proof fn lemma_last_index(names: Seq<Seq<char>>, name: Seq<char>)
    ensures
        match last_index(names, name) {
            Some(k) => k < names.len() && names[k as int] == name && forall|m: int|
                k < m < names.len() ==> names[m] != name,
            None => forall|m: int| 0 <= m < names.len() ==> names[m] != name,
        },
    decreases names.len(),
{
    if names.len() > 0 && names.last() != name {
        lemma_last_index(names.drop_last(), name);
        assert forall|m: int| 0 <= m < names.len() - 1 implies names[m] == names.drop_last()[m] by {}
    }
}

proof fn lemma_entry_lookup(names: Seq<Seq<char>>, n: int, name: Seq<char>)
    requires
        0 <= n <= names.len(),
    ensures
        entry_lookup(index_entries(names, n), name) == (match last_index(names, name) {
            Some(k) => if k < n { Some(k) } else { None },
            None => None,
        }),
    decreases n,
{
    lemma_last_index(names, name);
    if n > 0 {
        lemma_entry_lookup(names, n - 1, name);
        lemma_last_index(names, names[n - 1]);
        let es = index_entries(names, n - 1);
        let x = (names[n - 1], (n - 1) as nat);
        assert(es.push(x).drop_last() =~= es);
        assert(es.push(x).last() == x);
    }
}

pub(crate) proof fn lemma_transitions_before_mono(states: Seq<SpecState>, a: int, b: int)
    requires
        a <= b,
    ensures
        transitions_before(states, a) <= transitions_before(states, b),
    decreases b - a,
{
    if a < b {
        lemma_transitions_before_mono(states, a, b - 1);
    }
}

/// The graph of a program, or the message for its first transition to an unknown state.
pub open spec fn graph_matches(g: StateGraph, states: Seq<SpecState>) -> bool {
    &&& graph_nodes(g.graph) == state_names(states)
    &&& spec_edges(states, 0, 0, Seq::empty()) == Ok::<Seq<EdgeView>, Seq<char>>(
        graph_edges(g.graph),
    )
    &&& entries_view(g.indices@) == index_entries(state_names(states), states.len() as int)
    &&& g.terminal_nodes@ == terminal_indices(states, states.len() as int)
}

impl StateGraph {
    /// The value of the last entry of `indices` named `name`.
    fn lookup(indices: &Vec<(String, usize)>, name: &String) -> (r: Option<usize>)
        ensures
            match entry_lookup(entries_view(indices@), name@) {
                Some(k) => r == Some(k as usize),
                None => r is None,
            },
    {
        let mut i = indices.len();
        assert(indices@.take(i as int) =~= indices@);
        while i > 0
            invariant
                i <= indices@.len(),
                entry_lookup(entries_view(indices@), name@) == entry_lookup(
                    entries_view(indices@.take(i as int)),
                    name@,
                ),
            decreases i,
        {
            let ghost es = entries_view(indices@.take(i as int));
            assert(es.last() == (indices@[i - 1].0@, indices@[i - 1].1 as nat));
            if indices[i - 1].0 == *name {
                return Some(indices[i - 1].1);
            }
            assert(es.drop_last() =~= entries_view(indices@.take(i - 1)));
            i = i - 1;
        }
        assert(entries_view(indices@.take(0)) =~= Seq::<(Seq<char>, nat)>::empty());
        None
    }

    /// Builds the graph of a program: a node per state in order, an edge per
    /// transition, the name table and the terminal nodes. Fails with a
    /// message on the first transition (in source order) whose target is no
    /// state's name.
    pub fn from_ast(program: &TytoProgram) -> (r: Result<StateGraph, String>)
        requires
            program.states@.len() < u32::MAX,
            transitions_before(program@.states, program@.states.len() as int) < u32::MAX,
        ensures
            match spec_edges(program@.states, 0, 0, Seq::empty()) {
                Ok(_) => r matches Ok(g) && graph_matches(g, program@.states),
                Err(m) => r matches Err(m2) && m2@ == m,
            },
    {
        let ghost states = program@.states;
        let ghost names = state_names(states);
        let n = program.states.len();
        let mut graph = graph_new();
        let mut indices: Vec<(String, usize)> = Vec::new();
        let mut terminal_nodes: Vec<usize> = Vec::new();
        let mut i: usize = 0;
        assert(entries_view(indices@) =~= Seq::<(Seq<char>, nat)>::empty());
        while i < n
            invariant
                n == program.states@.len() == states.len(),
                states == program@.states,
                names == state_names(states),
                n < u32::MAX,
                i <= n,
                graph_nodes(graph) == names.take(i as int),
                graph_edges(graph) == Seq::<EdgeView>::empty(),
                terminal_nodes@ == terminal_indices(states, i as int),
            decreases n - i,
        {
            let st = &program.states[i];
            assert(states[i as int] == st@);
            let idx = graph_add_node(&mut graph, st.name.clone());
            if st.is_terminal {
                terminal_nodes.push(idx);
            }
            assert(names.take(i + 1) =~= names.take(i as int).push(names[i as int]));
            i = i + 1;
        }
        assert(names.take(n as int) =~= names);
        // the name table: each name with its last node
        let mut k: usize = 0;
        while k < n
            invariant
                n == program.states@.len() == states.len(),
                states == program@.states,
                names == state_names(states),
                k <= n,
                entries_view(indices@) == index_entries(names, k as int),
            decreases n - k,
        {
            let name = &program.states[k].name;
            assert(names[k as int] == name@);
            let mut later = false;
            let mut m = k + 1;
            while m < n
                invariant
                    n == program.states@.len() == states.len(),
                    states == program@.states,
                    names == state_names(states),
                    k < m <= n,
                    names[k as int] == name@,
                    later <==> exists|q: int| k < q < m && #[trigger] names[q] == name@,
                decreases n - m,
            {
                assert(names[m as int] == program.states@[m as int].name@);
                if program.states[m].name == *name {
                    later = true;
                }
                m = m + 1;
            }
            proof {
                lemma_last_index(names, names[k as int]);
            }
            if !later {
                let ghost before = indices@;
                indices.push((name.clone(), k));
                assert(entries_view(indices@) =~= entries_view(before).push((name@, k as nat)));
            }
            k = k + 1;
        }
        // the edges, in source order
        let mut i: usize = 0;
        assert(spec_edges(states, 0, 0, Seq::empty()) == spec_edges(states, i as int, 0, graph_edges(graph)));
        while i < n
            invariant
                n == program.states@.len() == states.len(),
                states == program@.states,
                names == state_names(states),
                n < u32::MAX,
                transitions_before(states, n as int) < u32::MAX,
                i <= n,
                graph_nodes(graph) == names,
                graph_edges(graph).len() == transitions_before(states, i as int),
                entries_view(indices@) == index_entries(names, n as int),
                spec_edges(states, 0, 0, Seq::empty()) == spec_edges(
                    states,
                    i as int,
                    0,
                    graph_edges(graph),
                ),
            decreases n - i,
        {
            let st = &program.states[i];
            assert(states[i as int] == st@);
            proof {
                lemma_entry_lookup(names, n as int, st.name@);
                lemma_last_index(names, st.name@);
                lemma_transitions_before_mono(states, i + 1, n as int);
            }
            let src = match Self::lookup(&indices, &st.name) {
                Some(s) => s,
                None => {
                    assert(names[i as int] == st.name@);
                    assert(false);
                    0
                },
            };
            let tn = st.transitions.len();
            let mut j: usize = 0;
            while j < tn
                invariant
                    n == program.states@.len() == states.len(),
                    states == program@.states,
                    names == state_names(states),
                    i < n,
                    tn == st.transitions@.len() == states[i as int].transitions.len(),
                    st@ == states[i as int],
                    j <= tn,
                    src < n,
                    Some(src as nat) == last_index(names, st.name@),
                    transitions_before(states, i + 1) < u32::MAX,
                    graph_nodes(graph) == names,
                    graph_edges(graph).len() == transitions_before(states, i as int) + j,
                    entries_view(indices@) == index_entries(names, n as int),
                    spec_edges(states, 0, 0, Seq::empty()) == spec_edges(
                        states,
                        i as int,
                        j as int,
                        graph_edges(graph),
                    ),
                decreases tn - j,
            {
                let t = &st.transitions[j];
                assert(states[i as int].transitions[j as int] == t@);
                proof {
                    lemma_entry_lookup(names, n as int, t.target@);
                    lemma_last_index(names, t.target@);
                }
                match Self::lookup(&indices, &t.target) {
                    Some(dst) => {
                        graph_add_edge(&mut graph, src, dst, t.event.clone());
                    },
                    None => {
                        let mut msg = "Semantic Error: The state '".to_owned();
                        msg.append(st.name.as_str());
                        msg.append("' attempts to transition to a non-existent state '");
                        msg.append(t.target.as_str());
                        msg.append("'.");
                        return Err(msg);
                    },
                }
                j = j + 1;
            }
            i = i + 1;
        }
        Ok(StateGraph { graph, indices, terminal_nodes })
    }
}

} // verus!
