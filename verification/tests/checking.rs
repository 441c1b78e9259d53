use tyto::compiler::parse_and_validate;
use tyto::error::Error;
use tyto::graph::StateGraph;
use tyto::parser::parse_dsl;
use tyto::validator::Validator;

#[test]
fn graph_of_readme_like_program() {
    let p = parse_dsl(
        "state A { on Go -> B; on Stop -> C; } state B { on Back -> A; } state C { terminal; }",
    )
    .unwrap();
    let g = StateGraph::from_ast(&p).unwrap();
    assert_eq!(g.graph.node_count(), 3);
    assert_eq!(g.graph.edge_count(), 3);
    assert_eq!(g.graph[petgraph::graph::NodeIndex::new(1)], "B");
    assert_eq!(g.terminal_nodes, vec![2]);
    assert_eq!(
        g.indices,
        vec![("A".to_string(), 0), ("B".to_string(), 1), ("C".to_string(), 2)]
    );
    let edges: Vec<(usize, usize, String)> = g
        .graph
        .raw_edges()
        .iter()
        .map(|e| (e.source().index(), e.target().index(), e.weight.clone()))
        .collect();
    assert_eq!(
        edges,
        vec![
            (0, 1, "Go".to_string()),
            (0, 2, "Stop".to_string()),
            (1, 0, "Back".to_string())
        ]
    );
    assert!(Validator::validate(&g).is_ok());
}

#[test]
fn duplicate_names_use_the_last_state() {
    let p = parse_dsl("state A { on Go -> A; } state A { terminal; }").unwrap();
    let g = StateGraph::from_ast(&p).unwrap();
    assert_eq!(g.indices, vec![("A".to_string(), 1)]);
    let e = &g.graph.raw_edges()[0];
    assert_eq!((e.source().index(), e.target().index()), (1, 1));
    // the first "A" node has no edges of its own, so it is a deadlock
    let errors = Validator::validate(&g).unwrap_err();
    assert_eq!(
        errors,
        vec!["Deadlock detected: The state 'A' has no outgoing transitions and is not marked as 'terminal'."
            .to_string()]
    );
}

#[test]
fn missing_target_is_a_semantic_error() {
    let p = parse_dsl("state A { on Go -> Nowhere; on Again -> Elsewhere; }").unwrap();
    match StateGraph::from_ast(&p) {
        Err(m) => assert_eq!(
            m,
            "Semantic Error: The state 'A' attempts to transition to a non-existent state 'Nowhere'."
        ),
        Ok(_) => panic!("expected an error"),
    }
}

#[test]
fn deadlocks_and_orphans() {
    let p = parse_dsl("state Start { on Go -> Middle; } state Middle { } state Lonely { terminal; }")
        .unwrap();
    let g = StateGraph::from_ast(&p).unwrap();
    let errors = Validator::validate(&g).unwrap_err();
    assert_eq!(
        errors,
        vec![
            "Deadlock detected: The state 'Middle' has no outgoing transitions and is not marked as 'terminal'."
                .to_string(),
            "Orphan state detected: The state 'Lonely' is inaccessible. No transitions point to it."
                .to_string(),
        ]
    );
}

#[test]
fn first_state_may_be_unreached_and_self_loops_count() {
    let p = parse_dsl("state Start { on Loop -> Start; }").unwrap();
    let g = StateGraph::from_ast(&p).unwrap();
    assert!(Validator::validate(&g).is_ok());
}

#[test]
fn parse_and_validate_reports_each_stage() {
    let ok = parse_and_validate("state A { terminal; }", "a.ty", None).unwrap();
    assert_eq!(ok.states.len(), 1);

    match parse_and_validate("state A { on }", "a.ty", None) {
        Err(Error::Parse { source, message }) => {
            assert_eq!(source, "a.ty");
            assert_eq!(message, "line 1, column 14: expected a name");
        }
        other => panic!("{:?}", other),
    }
    match parse_and_validate("state A { on Go -> B; }", "a.ty", None) {
        Err(Error::Semantic { message }) => assert_eq!(
            message,
            "Semantic Error: The state 'A' attempts to transition to a non-existent state 'B'."
        ),
        other => panic!("{:?}", other),
    }
    match parse_and_validate("state A { } ", "a.ty", Some("orders")) {
        Err(Error::Validation { module, errors }) => {
            assert_eq!(module, Some("orders".to_string()));
            assert_eq!(errors.len(), 1);
        }
        other => panic!("{:?}", other),
    }
}

#[test]
fn accepted_exactly_when_well_formed() {
    // well formed: targets exist, no deadlock, every later state is reached
    let ok = "state Draft { on Submit -> Review; } \
              state Review { success on Approve -> Done; recoverable on Reject -> Draft; } \
              state Done { terminal; }";
    assert!(parse_and_validate(ok, "w.ty", None).is_ok());
    // one fault at a time
    let dangling = "state Draft { on Submit -> Gone; } state Done { terminal; }";
    assert!(matches!(
        parse_and_validate(dangling, "w.ty", None),
        Err(Error::Semantic { .. })
    ));
    let deadlock = "state Draft { on Submit -> Review; } state Review { }";
    assert!(matches!(
        parse_and_validate(deadlock, "w.ty", None),
        Err(Error::Validation { .. })
    ));
    let orphan = "state Draft { on Submit -> Draft; } state Done { terminal; }";
    assert!(matches!(
        parse_and_validate(orphan, "w.ty", None),
        Err(Error::Validation { .. })
    ));
}

#[test]
fn order_machine_is_accepted() {
    let src = "context { order_id: String }

state Pending {
    on Pay -> Paid;
    on Cancel -> Cancelled;
}

state Paid {
    data { transaction_id: String }
    success on Ship -> Shipped;
    recoverable on Refund -> Cancelled;
}

state Shipped { terminal; }
state Cancelled { terminal; }
";
    let p = parse_and_validate(src, "order.ty", Some("orders")).unwrap();
    assert_eq!(p.states.len(), 4);
    assert_eq!(p.context.as_ref().unwrap().fields[0].name, "order_id");
}

#[test]
fn small_programs_fit_the_graph() {
    let p = tyto::parser::parse_dsl("state A { on Go -> A; } state B { terminal; }").unwrap();
    assert!(tyto::compiler::program_fits_graph(&p));
}
