use depgraph::graph::{report_fits, ModuleGraph};
use depgraph::query::QueryError;
use depgraph::report::{Dependency, Module};

fn dep(target: &str) -> Dependency {
    Dependency::new(target.to_string(), format!("./{}", target), false)
}

fn dynamic_dep(target: &str) -> Dependency {
    Dependency::new(target.to_string(), format!("./{}", target), true)
}

fn module(source: &str, deps: Vec<Dependency>) -> Module {
    Module::new(source.to_string(), deps)
}

fn strings(xs: &[&str]) -> Vec<String> {
    xs.iter().map(|s| s.to_string()).collect()
}

fn build(modules: &Vec<Module>) -> ModuleGraph {
    assert!(report_fits(modules));
    ModuleGraph::build(modules)
}

#[test]
fn chain_has_three_nodes_two_edges_and_shortest_path() {
    let modules = vec![
        module("A", vec![dep("B")]),
        module("B", vec![dep("C")]),
        module("C", vec![]),
    ];
    let g = build(&modules);
    assert_eq!(g.node_count(), 3);
    assert_eq!(g.edge_count(), 2);
    assert_eq!(g.shortest_path("A", "C"), Ok(Some((2, strings(&["A", "B", "C"])))));
}

#[test]
fn shared_target_gets_one_node_with_two_in_edges() {
    let modules = vec![
        module("A", vec![dep("B")]),
        module("B", vec![dep("C")]),
        module("D", vec![dep("B")]),
    ];
    let g = build(&modules);
    assert_eq!(g.node_count(), 4);
    assert_eq!(g.edge_count(), 3);
    assert!(g.has_edge("A", "B"));
    assert!(g.has_edge("D", "B"));
    assert!(g.has_edge("B", "C"));
    assert!(!g.has_edge("B", "A"));
}

#[test]
fn dynamic_import_makes_no_edge_and_no_node() {
    let modules = vec![module("A", vec![dynamic_dep("B"), dep("C")])];
    let g = build(&modules);
    assert!(g.has_edge("A", "C"));
    assert!(!g.has_edge("A", "B"));
    assert!(!g.contains("B"));
    assert_eq!(g.node_count(), 2);
    assert_eq!(g.edge_count(), 1);
}

#[test]
fn dynamically_imported_module_listed_elsewhere_keeps_its_node() {
    let modules = vec![
        module("A", vec![dynamic_dep("B"), dep("C")]),
        module("B", vec![]),
    ];
    let g = build(&modules);
    assert!(g.contains("B"));
    assert!(!g.has_edge("A", "B"));
    assert_eq!(g.shortest_path("A", "B"), Ok(None));
}

#[test]
fn diamond_has_two_simple_paths() {
    let modules = vec![
        module("A", vec![dep("B"), dep("C")]),
        module("B", vec![dep("D")]),
        module("C", vec![dep("D")]),
        module("D", vec![]),
    ];
    let g = build(&modules);
    let mut paths = g.all_simple_paths("A", "D").unwrap();
    paths.sort();
    assert_eq!(paths, vec![strings(&["A", "B", "D"]), strings(&["A", "C", "D"])]);
    let (cost, path) = g.shortest_path("A", "D").unwrap().unwrap();
    assert_eq!(cost, 2);
    assert_eq!(path.len(), 3);
    assert_eq!(path[0], "A");
    assert_eq!(path[2], "D");
}

#[test]
fn disconnected_modules_have_no_path() {
    let modules = vec![module("A", vec![]), module("Z", vec![])];
    let g = build(&modules);
    assert_eq!(g.shortest_path("A", "Z"), Ok(None));
    assert_eq!(g.all_simple_paths("A", "Z"), Ok(Vec::<Vec<String>>::new()));
}

#[test]
fn shortest_path_from_a_module_to_itself() {
    let modules = vec![module("A", vec![dep("B")]), module("B", vec![dep("A")])];
    let g = build(&modules);
    assert_eq!(g.shortest_path("A", "A"), Ok(Some((0, strings(&["A"])))));
    assert_eq!(g.shortest_path("B", "B"), Ok(Some((0, strings(&["B"])))));
    assert_eq!(g.all_simple_paths("A", "A"), Ok(vec![strings(&["A"])]));
}

#[test]
fn unknown_paths_are_reported() {
    let modules = vec![module("A", vec![dep("B")])];
    let g = build(&modules);
    assert_eq!(g.shortest_path("X", "B"), Err(QueryError::UnknownNode("X".to_string())));
    assert_eq!(g.shortest_path("A", "Y"), Err(QueryError::UnknownNode("Y".to_string())));
    assert_eq!(g.all_simple_paths("X", "Y"), Err(QueryError::UnknownNode("X".to_string())));
    assert_eq!(g.all_simple_paths("A", "Y"), Err(QueryError::UnknownNode("Y".to_string())));
}

#[test]
fn shortest_path_prefers_fewer_edges() {
    let modules = vec![
        module("A", vec![dep("B"), dep("E")]),
        module("B", vec![dep("C")]),
        module("C", vec![dep("D")]),
        module("E", vec![dep("D")]),
    ];
    let g = build(&modules);
    assert_eq!(g.shortest_path("A", "D"), Ok(Some((2, strings(&["A", "E", "D"])))));
    let mut paths = g.all_simple_paths("A", "D").unwrap();
    paths.sort();
    assert_eq!(
        paths,
        vec![strings(&["A", "B", "C", "D"]), strings(&["A", "E", "D"])]
    );
}

#[test]
fn edges_follow_import_direction_only() {
    let modules = vec![module("A", vec![dep("B")])];
    let g = build(&modules);
    assert_eq!(g.shortest_path("B", "A"), Ok(None));
    assert_eq!(g.all_simple_paths("B", "A"), Ok(Vec::<Vec<String>>::new()));
}

#[test]
fn cycles_are_not_followed_twice() {
    let modules = vec![
        module("A", vec![dep("B")]),
        module("B", vec![dep("C"), dep("A")]),
        module("C", vec![dep("A"), dep("D")]),
    ];
    let g = build(&modules);
    assert_eq!(g.all_simple_paths("A", "D"), Ok(vec![strings(&["A", "B", "C", "D"])]));
}

#[test]
fn repeated_imports_share_one_edge_and_one_path() {
    let modules = vec![
        module("A", vec![dep("B"), dep("B")]),
        module("A", vec![dep("B")]),
        module("B", vec![]),
    ];
    let g = build(&modules);
    assert_eq!(g.node_count(), 2);
    assert_eq!(g.edge_count(), 1);
    assert_eq!(g.all_simple_paths("A", "B"), Ok(vec![strings(&["A", "B"])]));
}

#[test]
fn successors_and_names_of_nodes() {
    let modules = vec![module("A", vec![dep("B"), dep("C")])];
    let g = build(&modules);
    assert_eq!(g.name_at(0), "A");
    assert_eq!(g.name_at(1), "B");
    assert_eq!(g.name_at(2), "C");
    assert_eq!(g.lookup("C"), Some(2));
    assert_eq!(g.lookup("Q"), None);
    assert_eq!(g.successors(0), vec![2, 1]);
    assert_eq!(g.successors(2), Vec::<usize>::new());
}

#[test]
fn empty_report_builds_empty_graph() {
    let modules: Vec<Module> = Vec::new();
    let g = build(&modules);
    assert_eq!(g.node_count(), 0);
    assert_eq!(g.edge_count(), 0);
    assert!(matches!(g.shortest_path("A", "A"), Err(QueryError::UnknownNode(_))));
}

#[test]
fn bounded_enumeration_keeps_only_short_paths() {
    let modules = vec![
        module("A", vec![dep("B"), dep("E")]),
        module("B", vec![dep("C")]),
        module("C", vec![dep("D")]),
        module("E", vec![dep("D")]),
    ];
    let g = build(&modules);
    assert_eq!(g.all_simple_paths_within("A", "D", 3), Ok(vec![strings(&["A", "E", "D"])]));
    assert_eq!(g.all_simple_paths_within("A", "D", 2), Ok(Vec::<Vec<String>>::new()));
    assert_eq!(g.all_simple_paths_within("A", "A", 0), Ok(Vec::<Vec<String>>::new()));
    let mut all = g.all_simple_paths_within("A", "D", 10).unwrap();
    all.sort();
    assert_eq!(all, vec![strings(&["A", "B", "C", "D"]), strings(&["A", "E", "D"])]);
    assert_eq!(
        g.all_simple_paths_within("A", "Q", 3),
        Err(QueryError::UnknownNode("Q".to_string()))
    );
}

#[test]
fn shorter_paths_come_first() {
    let modules = vec![
        module("A", vec![dep("B"), dep("D")]),
        module("B", vec![dep("C")]),
        module("C", vec![dep("D")]),
    ];
    let g = build(&modules);
    let paths = g.all_simple_paths("A", "D").unwrap();
    assert_eq!(paths, vec![strings(&["A", "D"]), strings(&["A", "B", "C", "D"])]);
}
