use incremental::engine::{test_run, Handle, Incremental};
use incremental::id::Id;
use incremental::kind::{Combine2, IntFn, Kind, Map2, Var};
use incremental::store::{Node, Store};
use incremental::Error;

/// Build the demonstration graph: inputs a = 3 and b = 5, c = a + b,
/// n = 1, d = n + c.  Returns the engine and the handles (a, b, c, n, d).
fn demo_graph() -> (Incremental<IntFn>, Handle, Handle, Handle, Handle, Handle) {
    let mut incr = Incremental::<IntFn>::new();
    let a = incr.create_input(3);
    let b = incr.create_input(5);
    let c = incr.combine2(a, b, IntFn::Add).unwrap();
    let n = incr.create_input(1);
    let d = incr.combine2(n, c, IntFn::Add).unwrap();
    (incr, a, b, c, n, d)
}

#[test]
fn test_misc() {
    assert_eq!(test_run(), Ok(9));
}

#[test]
fn scenario_a_stabilize_and_observe() {
    let (mut incr, _a, _b, c, _n, d) = demo_graph();
    assert!(incr.stabilize().is_ok());
    assert_eq!(incr.observe(d), Ok(9));
    assert_eq!(incr.observe(c), Ok(8));
}

#[test]
fn scenario_b_set_input_propagates() {
    let (mut incr, a, _b, c, _n, d) = demo_graph();
    assert!(incr.stabilize().is_ok());
    assert_eq!(incr.set_input(a, 30), Ok(()));
    assert!(incr.stabilize().is_ok());
    assert_eq!(incr.observe(d), Ok(36));
    assert_eq!(incr.observe(c), Ok(35));
}

#[test]
fn scenario_c_unchanged_value_is_cut_off() {
    let (mut incr, a, _b, c, _n, d) = demo_graph();
    assert!(incr.stabilize().is_ok());
    assert_eq!(incr.last_changed_epoch(c), Ok(1));
    assert_eq!(incr.last_changed_epoch(d), Ok(1));
    // setting the same value marks the input stale, but the recomputation
    // yields an unchanged sum, so no stamp downstream moves
    assert_eq!(incr.set_input(a, 3), Ok(()));
    assert!(incr.stabilize().is_ok());
    assert_eq!(incr.last_changed_epoch(c), Ok(1));
    assert_eq!(incr.last_changed_epoch(d), Ok(1));
    assert_eq!(incr.observe(d), Ok(9));
}

#[test]
fn scenario_d_injected_cycle_is_detected() {
    let mut incr = Incremental::<IntFn>::new();
    let a = incr.create_input(3);
    let b = incr.create_input(5);
    // inject a cycle directly into the store, bypassing normal construction
    assert_eq!(incr.store.add_edge(a.id, b.id), Ok(()));
    assert_eq!(incr.store.add_edge(b.id, a.id), Ok(()));
    let r = incr.stabilize();
    assert!(matches!(r, Err(Error::CycleDetected(_))));
    // the failed pass touched no node, but consumed its epoch
    assert_eq!(incr.observe(a), Ok(3));
    assert_eq!(incr.observe(b), Ok(5));
    assert_eq!(incr.last_changed_epoch(a), Ok(0));
    assert_eq!(incr.last_changed_epoch(b), Ok(0));
    assert_eq!(incr.epoch_ids.last, 1);
    assert!(matches!(incr.stabilize(), Err(Error::CycleDetected(_))));
    assert_eq!(incr.epoch_ids.last, 2);
}

#[test]
fn second_pass_recomputes_nothing() {
    let (mut incr, a, b, c, n, d) = demo_graph();
    assert!(incr.stabilize().is_ok());
    let epochs: Vec<Result<usize, Error>> =
        vec![a, b, c, n, d].into_iter().map(|h| incr.last_changed_epoch(h)).collect();
    assert!(incr.stabilize().is_ok());
    for (h, e) in vec![a, b, c, n, d].into_iter().zip(epochs.into_iter()) {
        assert_eq!(incr.last_changed_epoch(h), e);
    }
    assert_eq!(incr.observe(d), Ok(9));
}

#[test]
fn constant_combiner_stops_propagation() {
    let mut incr = Incremental::<IntFn>::new();
    let a = incr.create_input(3);
    let b = incr.create_input(5);
    let k = incr.combine2(a, b, IntFn::Const(7)).unwrap();
    let m = incr.combine2(k, b, IntFn::Add).unwrap();
    assert!(incr.stabilize().is_ok());
    assert_eq!(incr.observe(k), Ok(7));
    assert_eq!(incr.observe(m), Ok(12));
    assert_eq!(incr.last_changed_epoch(k), Ok(1));
    assert_eq!(incr.last_changed_epoch(m), Ok(1));
    // the input changes, but the constant node's output does not, so its
    // dependent keeps both its cache and its stamp
    assert_eq!(incr.set_input(a, 100), Ok(()));
    assert!(incr.stabilize().is_ok());
    assert_eq!(incr.last_changed_epoch(k), Ok(1));
    assert_eq!(incr.last_changed_epoch(m), Ok(1));
    assert_eq!(incr.observe(m), Ok(12));
}

#[test]
fn fresh_input_is_observable_without_stabilize() {
    let mut incr = Incremental::<IntFn>::new();
    let a = incr.create_input(42);
    assert_eq!(incr.observe(a), Ok(42));
}

#[test]
fn observe_derived_before_stabilize_fails() {
    let mut incr = Incremental::<IntFn>::new();
    let a = incr.create_input(1);
    let b = incr.create_input(2);
    let c = incr.combine2(a, b, IntFn::Add).unwrap();
    assert_eq!(incr.observe(c), Err(Error::NotYetComputed));
}

#[test]
fn foreign_handle_is_rejected() {
    let mut incr = Incremental::<IntFn>::new();
    let _a = incr.create_input(1);
    let foreign = Handle { id: 99 };
    assert_eq!(incr.observe(foreign), Err(Error::UnknownNode));
    assert_eq!(incr.set_input(foreign, 0), Err(Error::UnknownNode));
    assert_eq!(incr.last_changed_epoch(foreign), Err(Error::UnknownNode));
    assert!(matches!(incr.combine2(foreign, foreign, IntFn::Add), Err(Error::UnknownNode)));
    let zero = Handle { id: 0 };
    assert_eq!(incr.observe(zero), Err(Error::UnknownNode));
}

#[test]
fn set_input_on_derived_node_is_a_type_mismatch() {
    let mut incr = Incremental::<IntFn>::new();
    let a = incr.create_input(1);
    let b = incr.create_input(2);
    let c = incr.combine2(a, b, IntFn::Add).unwrap();
    assert_eq!(incr.set_input(c, 5), Err(Error::TypeMismatch));
    // nothing changed
    assert!(incr.stabilize().is_ok());
    assert_eq!(incr.observe(c), Ok(3));
}

#[test]
fn set_input_marks_only_the_next_pass() {
    let mut incr = Incremental::<IntFn>::new();
    let a = incr.create_input(1);
    assert_eq!(incr.set_input(a, 7), Ok(()));
    // the input is stamped with the epoch the next pass will use
    assert_eq!(incr.last_changed_epoch(a), Ok(1));
    assert_eq!(incr.observe(a), Ok(7));
    assert!(incr.stabilize().is_ok());
    assert_eq!(incr.last_changed_epoch(a), Ok(1));
}

#[test]
fn topological_order_breaks_ties_by_insertion() {
    let (incr, _a, _b, _c, _n, _d) = demo_graph();
    // node 4 has no constraint against 3; the lower identifier comes first
    assert_eq!(incr.store.topological_order(), Ok(vec![1, 2, 3, 4, 5]));
}

#[test]
fn topological_order_respects_edges() {
    let mut store = Store::<IntFn>::new();
    let n1 = store.add_node(Kind::Var(Var::new(1)));
    let n2 = store.add_node(Kind::Var(Var::new(2)));
    let n3 = store.add_node(Kind::Var(Var::new(3)));
    // 3 -> 1 and 3 -> 2: node 3 must come first despite insertion order
    assert_eq!(store.add_edge(n3, n1), Ok(()));
    assert_eq!(store.add_edge(n3, n2), Ok(()));
    assert_eq!(store.topological_order(), Ok(vec![3, 1, 2]));
}

#[test]
fn add_edge_rejects_unknown_nodes() {
    let mut store = Store::<IntFn>::new();
    let n1 = store.add_node(Kind::Var(Var::new(1)));
    assert_eq!(store.add_edge(n1, 2), Err(Error::UnknownNode));
    assert_eq!(store.add_edge(0, n1), Err(Error::UnknownNode));
}

#[test]
fn store_self_loop_is_a_cycle() {
    let mut store = Store::<IntFn>::new();
    let n1 = store.add_node(Kind::Var(Var::new(1)));
    assert_eq!(store.add_edge(n1, n1), Ok(()));
    match store.topological_order() {
        Err(Error::CycleDetected(left)) => assert_eq!(left, vec![1]),
        other => panic!("expected a detected cycle, got {:?}", other),
    }
}

#[test]
fn identifiers_start_at_one_and_increase() {
    let mut ids = Id::new();
    assert_eq!(Id::none(), 0);
    assert_eq!(ids.next(), Ok(1));
    assert_eq!(ids.next(), Ok(2));
    assert_eq!(ids.next(), Ok(3));
}

#[test]
fn identifier_exhaustion_is_reported() {
    let mut ids = Id { last: usize::MAX };
    assert_eq!(ids.next(), Err(Error::IdentifierExhausted));
    assert_eq!(ids.last, usize::MAX);
}

#[test]
fn addition_saturates_at_the_limits() {
    assert_eq!(IntFn::Add.combine(i64::MAX, 1), i64::MAX);
    assert_eq!(IntFn::Add.combine(i64::MIN, -1), i64::MIN);
    assert_eq!(IntFn::Add.combine(i64::MAX, -1), i64::MAX - 1);
    assert_eq!(IntFn::Add.combine(-3, 8), 5);
    assert_eq!(IntFn::Const(11).combine(1000, -1000), 11);
}

#[test]
fn node_and_kind_constructors() {
    let v = Var::new(9);
    assert_eq!(v.value, 9);
    let m = Map2::new(1, 2, IntFn::Add);
    assert_eq!(m.a, 1);
    assert_eq!(m.b, 2);
    assert_eq!(m.cached, None);
    let node: Node<IntFn> = Node::new(Kind::Var(v), 4);
    assert_eq!(node.id, 4);
    assert_eq!(node.last_changed_epoch, 0);
}

#[test]
fn growing_the_graph_after_a_pass() {
    let (mut incr, a, _b, c, _n, _d) = demo_graph();
    assert!(incr.stabilize().is_ok());
    // a node added later starts uncomputed and is picked up by the next pass
    let e = incr.combine2(a, c, IntFn::Add).unwrap();
    assert_eq!(incr.observe(e), Err(Error::NotYetComputed));
    assert!(incr.stabilize().is_ok());
    assert_eq!(incr.observe(e), Ok(11));
    assert_eq!(incr.last_changed_epoch(e), Ok(2));
}
