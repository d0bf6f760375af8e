use ecs_groups::group::{Group, GroupTree};

fn s(x: &str) -> String {
    x.to_string()
}

#[test]
fn components_order_determinism() {
    // group A owns C1 and includes B; B owns C2 and C3
    let tree = GroupTree {
        nodes: vec![
            Group { name: s("A"), local: vec![s("C1")], subgroups: vec![1] },
            Group { name: s("B"), local: vec![s("C2"), s("C3")], subgroups: vec![] },
        ],
    };
    assert_eq!(tree.components(0), vec![s("C1"), s("C2"), s("C3")]);
    assert_eq!(tree.components(1), vec![s("C2"), s("C3")]);
}

#[test]
fn local_components_are_declaration_order() {
    let tree = GroupTree {
        nodes: vec![Group { name: s("G"), local: vec![s("Z"), s("A"), s("M")], subgroups: vec![] }],
    };
    assert_eq!(tree.local_components(0), vec![s("Z"), s("A"), s("M")]);
    assert_eq!(tree.components(0), vec![s("Z"), s("A"), s("M")]);
    assert_eq!(tree.subgroups(0), Vec::<String>::new());
}

#[test]
fn subgroups_lists_immediate_children_names() {
    let tree = GroupTree {
        nodes: vec![
            Group { name: s("Top"), local: vec![], subgroups: vec![1, 2] },
            Group { name: s("Left"), local: vec![s("L")], subgroups: vec![] },
            Group { name: s("Right"), local: vec![s("R")], subgroups: vec![] },
        ],
    };
    assert_eq!(tree.subgroups(0), vec![s("Left"), s("Right")]);
    assert_eq!(tree.components(0), vec![s("L"), s("R")]);
}

#[test]
fn nested_subtrees_flatten_depth_first() {
    // Top -> [Mid -> [Leaf]], each with one local component
    let tree = GroupTree {
        nodes: vec![
            Group { name: s("Top"), local: vec![s("T")], subgroups: vec![1] },
            Group { name: s("Mid"), local: vec![s("M")], subgroups: vec![2] },
            Group { name: s("Leaf"), local: vec![s("L")], subgroups: vec![] },
        ],
    };
    assert_eq!(tree.components(0), vec![s("T"), s("M"), s("L")]);
}

#[test]
fn concrete_scenario_component_order() {
    // Sub = {local: [C1, C2]}, Top = {subgroups: [Sub], local: [C3, C4]}
    let tree = GroupTree {
        nodes: vec![
            Group { name: s("Top"), local: vec![s("C3"), s("C4")], subgroups: vec![1] },
            Group { name: s("Sub"), local: vec![s("C1"), s("C2")], subgroups: vec![] },
        ],
    };
    assert_eq!(tree.components(0), vec![s("C3"), s("C4"), s("C1"), s("C2")]);
    assert_eq!(tree.len(), 2);
}
