use repotower::idset::IdSet;
use repotower::layout::{layout_plan, GraphView, MAX_VISIBLE};
use repotower::model::{DependencyEdge, DependencyKind, ImpactResult, ModuleAnalysis};

fn module(id: &str, depth: usize) -> ModuleAnalysis {
    ModuleAnalysis {
        id: id.to_string(),
        relative_path: id.to_string(),
        file_name: id.to_string(),
        extension: "ts".to_string(),
        directory: String::new(),
        lines_of_code: 1,
        imports: vec![],
        imported_by: vec![],
        fan_in: 0,
        fan_out: 0,
        dependency_depth: depth,
        blast_radius: 0,
        cycle_id: None,
        is_entry_like: false,
        unresolved_imports: vec![],
    }
}

fn edge(source: &str, target: &str) -> DependencyEdge {
    DependencyEdge { source: source.to_string(), target: target.to_string(), kind: DependencyKind::Static }
}

fn chain() -> (Vec<ModuleAnalysis>, Vec<DependencyEdge>) {
    (
        vec![module("c", 2), module("a", 0), module("b", 1)],
        vec![edge("b", "a"), edge("c", "b"), edge("c", "b")],
    )
}

fn strings(v: &[&str]) -> Vec<String> {
    v.iter().map(|s| s.to_string()).collect()
}

fn pair(a: &str, b: &str) -> (String, String) {
    (a.to_string(), b.to_string())
}

#[test]
fn full_view_orders_by_depth_and_draws_only_real_edges() {
    let (modules, edges) = chain();
    let plan = layout_plan(&modules, &edges, GraphView::All, None, None, None, &IdSet::new());
    assert_eq!(plan.candidates, strings(&["a", "b", "c"]));
    assert_eq!(plan.shown, plan.candidates);
    assert_eq!(plan.hidden, 0);
    assert_eq!(
        plan.layers,
        vec![(0, strings(&["a"])), (1, strings(&["b"])), (2, strings(&["c"]))]
    );
    assert_eq!(plan.links, vec![pair("a", "b"), pair("b", "c")]);
    assert_eq!(plan.causal, vec![false, false]);
    assert_eq!(plan.untouched, 3);
    let anchored = layout_plan(&modules, &edges, GraphView::All, Some("c"), None, None, &IdSet::new());
    assert_eq!(anchored.candidates, strings(&["c", "a", "b"]));
    let stray = layout_plan(&modules, &edges, GraphView::All, Some("zzz"), None, None, &IdSet::new());
    assert_eq!(stray.candidates, strings(&["a", "b", "c"]));
}

#[test]
fn nearby_view_puts_dependencies_left_and_importers_right() {
    let (modules, edges) = chain();
    let plan = layout_plan(&modules, &edges, GraphView::Nearby, None, Some("b"), None, &IdSet::new());
    assert_eq!(plan.candidates, strings(&["b", "a", "c"]));
    assert_eq!(
        plan.layers,
        vec![(0, strings(&["a"])), (1, strings(&["b"])), (2, strings(&["c"]))]
    );
    let missing = layout_plan(&modules, &edges, GraphView::Nearby, None, Some("nope"), None, &IdSet::new());
    assert_eq!(missing.candidates, strings(&["a", "b", "c"]));
}

#[test]
fn impact_view_follows_waves_and_pulses_causal_edges() {
    let (modules, edges) = chain();
    let trace = ImpactResult {
        removed_module_id: "a".to_string(),
        total_affected: 2,
        module_count: 3,
        direct_affected: 1,
        transitive_affected: 1,
        max_cascade_depth: 2,
        waves: vec![strings(&["a"]), strings(&["b"]), strings(&["c"])],
    };
    let mut unavailable = IdSet::new();
    unavailable.insert("a");
    let plan = layout_plan(&modules, &edges, GraphView::Impact, None, None, Some(&trace), &unavailable);
    assert_eq!(plan.candidates, strings(&["a", "b", "c"]));
    assert_eq!(plan.links, vec![pair("a", "b"), pair("b", "c")]);
    assert_eq!(plan.causal, vec![true, true]);
    assert_eq!(plan.untouched, 0);
    let partial = ImpactResult { waves: vec![strings(&["b"]), strings(&["c"])], ..trace };
    let plan = layout_plan(&modules, &edges, GraphView::Impact, None, None, Some(&partial), &IdSet::new());
    assert_eq!(plan.candidates, strings(&["b", "c"]));
    assert_eq!(plan.layers, vec![(0, strings(&["b"])), (1, strings(&["c"]))]);
    assert_eq!(plan.untouched, 1);
    let full = layout_plan(&modules, &edges, GraphView::All, None, None, Some(&partial), &IdSet::new());
    assert_eq!(full.candidates, strings(&["a", "b", "c"]));
}

#[test]
fn at_most_the_visible_limit_is_shown() {
    let modules: Vec<ModuleAnalysis> = (0..300).map(|i| module(&format!("m{i:03}"), 0)).collect();
    let plan = layout_plan(&modules, &vec![], GraphView::All, None, None, None, &IdSet::new());
    assert_eq!(plan.shown.len(), MAX_VISIBLE);
    assert_eq!(plan.hidden, 300 - MAX_VISIBLE);
    assert_eq!(plan.shown[0], "m000");
    assert_eq!(plan.shown[MAX_VISIBLE - 1], "m249");
}
