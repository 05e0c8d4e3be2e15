use repotower::impact::impact;
use repotower::metrics::{calculate, GraphMetrics};
use repotower::model::{DependencyEdge, DependencyKind, ModuleAnalysis};

fn module(id: &str) -> ModuleAnalysis {
    let (directory, file_name) = match id.rsplit_once('/') {
        Some((directory, name)) => (directory.to_string(), name.to_string()),
        None => (".".to_string(), id.to_string()),
    };
    ModuleAnalysis {
        id: id.to_string(),
        relative_path: id.to_string(),
        file_name,
        extension: "ts".to_string(),
        directory,
        lines_of_code: 1,
        imports: vec![],
        imported_by: vec![],
        fan_in: 0,
        fan_out: 0,
        dependency_depth: 0,
        blast_radius: 0,
        cycle_id: None,
        is_entry_like: false,
        unresolved_imports: vec![],
    }
}

/// Modules sorted by identifier and edges sorted by (importer, dependency), as an analysis lists them.
fn graph(edges: &[(&str, &str)], extra: &[&str]) -> (Vec<ModuleAnalysis>, Vec<DependencyEdge>, GraphMetrics) {
    let mut ids: Vec<&str> = edges.iter().flat_map(|(a, b)| [*a, *b]).chain(extra.iter().copied()).collect();
    ids.sort();
    ids.dedup();
    let mut modules: Vec<ModuleAnalysis> = ids.iter().map(|id| module(id)).collect();
    let mut list: Vec<DependencyEdge> = edges
        .iter()
        .map(|(a, b)| DependencyEdge {
            source: a.to_string(),
            target: b.to_string(),
            kind: DependencyKind::Static,
        })
        .collect();
    list.sort_by(|a, b| a.source.cmp(&b.source).then_with(|| a.target.cmp(&b.target)));
    let metrics = calculate(&mut modules, &list);
    (modules, list, metrics)
}

const DEMO: [(&str, &str); 24] = [
    ("src/core/http.ts", "src/core/config.ts"),
    ("src/core/auth.ts", "src/core/config.ts"),
    ("src/data/projects.ts", "src/core/http.ts"),
    ("src/data/activity.ts", "src/core/http.ts"),
    ("src/data/profile.ts", "src/core/auth.ts"),
    ("src/data/session.ts", "src/core/auth.ts"),
    ("src/features/board.ts", "src/data/projects.ts"),
    ("src/features/feed.ts", "src/data/activity.ts"),
    ("src/features/account.ts", "src/data/profile.ts"),
    ("src/features/account.ts", "src/data/session.ts"),
    ("src/views/workspace.ts", "src/features/board.ts"),
    ("src/views/workspace.ts", "src/features/feed.ts"),
    ("src/views/settings.ts", "src/features/account.ts"),
    ("src/app/router.ts", "src/views/workspace.ts"),
    ("src/app/router.ts", "src/views/settings.ts"),
    ("src/app/main.ts", "src/app/router.ts"),
    ("src/ui/theme.ts", "src/ui/palette.ts"),
    ("src/ui/appearance.ts", "src/ui/theme.ts"),
    ("src/app/preview.ts", "src/ui/appearance.ts"),
    ("src/app/main.ts", "src/ui/theme.ts"),
    ("src/cli/report.ts", "src/utils/format.ts"),
    ("src/plugins/registry.ts", "src/plugins/hooks.ts"),
    ("src/plugins/hooks.ts", "src/plugins/registry.ts"),
    ("src/app/plugins-preview.ts", "src/plugins/registry.ts"),
];

fn find<'a>(modules: &'a [ModuleAnalysis], id: &str) -> &'a ModuleAnalysis {
    modules.iter().find(|m| m.id == id).unwrap()
}

#[test]
fn linear_direction_depth_and_waves() {
    let (modules, edges, _) = graph(&[("main.ts", "service.ts"), ("service.ts", "foundation.ts")], &[]);
    assert_eq!((modules.len(), edges.len()), (3, 2));
    let leaf = find(&modules, "foundation.ts");
    assert_eq!(
        (leaf.fan_in, leaf.fan_out, leaf.dependency_depth, leaf.blast_radius),
        (1, 0, 0, 2)
    );
    assert_eq!(leaf.blast_radius as f64 / modules.len() as f64, 2.0 / 3.0);
    let top = find(&modules, "main.ts");
    assert_eq!((top.dependency_depth, top.blast_radius), (2, 0));
    assert!(top.is_entry_like);
    let pull = impact(&modules, "foundation.ts", &[]).unwrap();
    assert_eq!(
        pull.waves,
        vec![vec!["foundation.ts"], vec!["service.ts"], vec!["main.ts"]]
    );
    assert_eq!(
        (pull.total_affected, pull.direct_affected, pull.transitive_affected, pull.max_cascade_depth),
        (2, 1, 1, 2)
    );
    let excluded = impact(&modules, "foundation.ts", &["service.ts".into()]).unwrap();
    assert_eq!(excluded.total_affected, 0);
    assert!(impact(&modules, "main.ts", &["main.ts".into()]).is_err());
}

#[test]
fn branching_shortest_distance_and_deduplication() {
    let (modules, edges, _) = graph(
        &[("left.ts", "base.ts"), ("right.ts", "base.ts"), ("app.ts", "left.ts"), ("app.ts", "right.ts")],
        &[],
    );
    let pull = impact(&modules, "base.ts", &[]).unwrap();
    assert_eq!(
        pull.waves,
        vec![vec!["base.ts"], vec!["left.ts", "right.ts"], vec!["app.ts"]]
    );
    assert_eq!(pull.total_affected, 3);
    let pull = impact(&modules, "base.ts", &["left.ts".into()]).unwrap();
    assert_eq!(pull.waves, vec![vec!["base.ts"], vec!["right.ts"], vec!["app.ts"]]);
    assert_eq!(edges.len(), 4);
}

#[test]
fn cycles_self_loops_and_component_depth() {
    let (modules, _, metrics) = graph(
        &[("a.ts", "b.ts"), ("b.ts", "a.ts"), ("a.ts", "c.ts"), ("main.ts", "b.ts"), ("self.ts", "self.ts")],
        &[],
    );
    assert_eq!(metrics.cycles, 2);
    let a = find(&modules, "a.ts");
    let b = find(&modules, "b.ts");
    assert_eq!(a.cycle_id, b.cycle_id);
    assert!(a.cycle_id.is_some());
    assert_eq!(a.dependency_depth, b.dependency_depth);
    assert_eq!(a.dependency_depth, 1);
    assert_eq!(a.blast_radius, 2);
    let self_loop = find(&modules, "self.ts");
    assert!(self_loop.cycle_id.is_some());
    assert_eq!(self_loop.blast_radius, 0);
    assert_eq!(impact(&modules, "self.ts", &[]).unwrap().waves, vec![vec!["self.ts"]]);
    assert_eq!(a.cycle_id, Some(1));
    assert_eq!(self_loop.cycle_id, Some(2));
    assert_eq!(find(&modules, "c.ts").cycle_id, None);
}

#[test]
fn deep_graph_is_iterative_and_exact() {
    let names: Vec<String> = (0..1200).map(|index| format!("m{index}.ts")).collect();
    let pairs: Vec<(&str, &str)> = (1..1200).map(|index| (names[index].as_str(), names[index - 1].as_str())).collect();
    let (modules, _, _) = graph(&pairs, &[]);
    let base = find(&modules, "m0.ts");
    assert_eq!(base.blast_radius, 1199);
    let top = find(&modules, "m1199.ts");
    assert_eq!(top.dependency_depth, 1199);
    let pull = impact(&modules, "m0.ts", &[]).unwrap();
    assert_eq!(pull.max_cascade_depth, 1199);
}

#[test]
fn graph_blast_metrics_equal_bfs_for_every_demo_module() {
    let (modules, edges, metrics) = graph(&DEMO, &[]);
    assert_eq!((modules.len(), edges.len()), (23, 24));
    assert_eq!(metrics.cycles, 1);
    for module in &modules {
        let pull = impact(&modules, &module.id, &[]).unwrap();
        assert_eq!(module.blast_radius, pull.total_affected, "{}", module.id);
    }
    let (again, _, again_metrics) = graph(&DEMO, &[]);
    assert_eq!(format!("{modules:?}"), format!("{again:?}"));
    assert_eq!(metrics.critical, again_metrics.critical);
}

#[test]
fn demo_has_real_branching_causes_and_leaves_independent_tools_available() {
    let (modules, _, _) = graph(&DEMO, &[]);
    let pull = impact(&modules, "src/core/config.ts", &[]).unwrap();
    assert_eq!(
        pull.waves,
        vec![
            vec!["src/core/config.ts"],
            vec!["src/core/auth.ts", "src/core/http.ts"],
            vec!["src/data/activity.ts", "src/data/profile.ts", "src/data/projects.ts", "src/data/session.ts"],
            vec!["src/features/account.ts", "src/features/board.ts", "src/features/feed.ts"],
            vec!["src/views/settings.ts", "src/views/workspace.ts"],
            vec!["src/app/router.ts"],
            vec!["src/app/main.ts"],
        ]
    );
    assert_eq!((pull.total_affected, pull.direct_affected, pull.transitive_affected), (13, 2, 11));
    assert_eq!(pull.max_cascade_depth, 6);
    for consecutive in pull.waves.windows(2) {
        for id in &consecutive[1] {
            let module = find(&modules, id);
            assert!(
                module.imports.iter().any(|dependency| consecutive[0].contains(dependency)),
                "{id}"
            );
        }
    }
    let unavailable: Vec<_> = pull.waves.iter().flatten().collect();
    let untouched: Vec<_> = modules
        .iter()
        .filter(|module| !unavailable.contains(&&module.id))
        .map(|module| module.id.as_str())
        .collect();
    assert_eq!(
        untouched,
        vec![
            "src/app/plugins-preview.ts",
            "src/app/preview.ts",
            "src/cli/report.ts",
            "src/plugins/hooks.ts",
            "src/plugins/registry.ts",
            "src/ui/appearance.ts",
            "src/ui/palette.ts",
            "src/ui/theme.ts",
            "src/utils/format.ts",
        ]
    );
    let cycle = impact(&modules, "src/plugins/registry.ts", &[]).unwrap();
    assert_eq!(
        cycle.waves,
        vec![vec!["src/plugins/registry.ts"], vec!["src/app/plugins-preview.ts", "src/plugins/hooks.ts"]]
    );
    assert_eq!(cycle.total_affected, 2);
}

#[test]
fn critical_modules_rank_by_blast_then_importers_then_name() {
    let (modules, _, metrics) = graph(&DEMO, &[]);
    assert_eq!(metrics.critical.len(), 12);
    assert_eq!(metrics.critical[0], "src/core/config.ts");
    for pair in metrics.critical.windows(2) {
        let a = find(&modules, &pair[0]);
        let b = find(&modules, &pair[1]);
        assert!((a.blast_radius, a.fan_in) >= (b.blast_radius, b.fan_in));
    }
    let (small, _, small_metrics) = graph(&[("b.ts", "a.ts")], &["c.ts"]);
    assert_eq!(small_metrics.critical, vec!["a.ts", "b.ts", "c.ts"]);
    assert_eq!(find(&small, "c.ts").dependency_depth, 0);
}

#[test]
fn neighbours_are_sorted_and_counted() {
    let (modules, _, _) = graph(&DEMO, &[]);
    let account = find(&modules, "src/features/account.ts");
    assert_eq!(account.imports, vec!["src/data/profile.ts", "src/data/session.ts"]);
    assert_eq!(account.imported_by, vec!["src/views/settings.ts"]);
    assert_eq!((account.fan_out, account.fan_in), (2, 1));
    let main = find(&modules, "src/app/main.ts");
    assert!(main.is_entry_like);
    assert_eq!(main.dependency_depth, 6);
    let config = find(&modules, "src/core/config.ts");
    assert_eq!(config.blast_radius, 13);
    assert_eq!(config.dependency_depth, 0);
}
