use rmcts::dfg::{roots_of, ruleset_kind, strip_single_root, with_root_marker, DfgError, DfgNode, RulesetKind};

fn node(op: &str, children: Vec<u32>) -> DfgNode {
    DfgNode { op: op.to_owned(), children }
}

#[test]
fn roots_are_the_unreferenced_nodes() {
    // 0 and 1 feed 2; 3 stands alone: the roots are 2 and 3.
    let nodes = vec![
        node("a", vec![]),
        node("b", vec![]),
        node("add", vec![0, 1]),
        node("c", vec![]),
    ];
    assert_eq!(roots_of(&nodes), vec![2, 3]);
}

#[test]
fn roots_of_empty_graph() {
    let nodes: Vec<DfgNode> = vec![];
    assert_eq!(roots_of(&nodes), Vec::<u32>::new());
}

#[test]
fn roots_with_shared_operand() {
    let nodes = vec![node("x", vec![]), node("neg", vec![0]), node("mul", vec![0, 1])];
    assert_eq!(roots_of(&nodes), vec![2]);
}

#[test]
fn strip_removes_the_single_marker() {
    let nodes = vec![node("x", vec![]), node("y", vec![]), node("__root", vec![0, 1])];
    let out = strip_single_root(&nodes).unwrap();
    assert_eq!(out.len(), 2);
    assert_eq!(out[0].op, "x");
    assert_eq!(out[1].op, "y");
}

#[test]
fn strip_rejects_missing_marker() {
    let nodes = vec![node("x", vec![]), node("y", vec![0])];
    assert!(matches!(strip_single_root(&nodes), Err(DfgError::MissingRoot)));
}

#[test]
fn strip_rejects_two_markers() {
    let nodes = vec![node("__root", vec![]), node("x", vec![]), node("__root", vec![1])];
    assert!(matches!(strip_single_root(&nodes), Err(DfgError::MultipleRoots)));
}

#[test]
fn root_marker_round_trip() {
    let nodes = vec![node("a", vec![]), node("b", vec![]), node("add", vec![0, 1])];
    let rooted = with_root_marker(&nodes);
    assert_eq!(rooted.len(), 4);
    assert_eq!(rooted[3].op, "__root");
    assert_eq!(rooted[3].children, vec![2]);
    let stripped = strip_single_root(&rooted).unwrap();
    assert_eq!(stripped.len(), 3);
    assert_eq!(stripped[2].op, "add");
}

#[test]
fn ruleset_names_map_to_kinds() {
    assert_eq!(ruleset_kind("int"), Some(RulesetKind::Int));
    assert_eq!(ruleset_kind("fp"), Some(RulesetKind::Fp));
    assert_eq!(ruleset_kind("boolean"), Some(RulesetKind::Boolean));
    assert_eq!(ruleset_kind("stochastic"), Some(RulesetKind::Stochastic));
    assert_eq!(ruleset_kind("cannonicalization"), None);
    assert_eq!(ruleset_kind(""), None);
}
