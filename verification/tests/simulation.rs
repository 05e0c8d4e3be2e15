use repotower::metrics::calculate;
use repotower::model::{DependencyEdge, DependencyKind, ModuleAnalysis};
use repotower::simulation::Simulation;

const DEMO: [(&str, &str); 24] = [
    ("src/core/http.ts", "src/core/config.ts"),
    ("src/core/auth.ts", "src/core/config.ts"),
    ("src/data/projects.ts", "src/core/http.ts"),
    ("src/data/activity.ts", "src/core/http.ts"),
    ("src/data/profile.ts", "src/core/auth.ts"),
    ("src/data/session.ts", "src/core/auth.ts"),
    ("src/features/board.ts", "src/data/projects.ts"),
    ("src/features/feed.ts", "src/data/activity.ts"),
    ("src/features/account.ts", "src/data/profile.ts"),
    ("src/features/account.ts", "src/data/session.ts"),
    ("src/views/workspace.ts", "src/features/board.ts"),
    ("src/views/workspace.ts", "src/features/feed.ts"),
    ("src/views/settings.ts", "src/features/account.ts"),
    ("src/app/router.ts", "src/views/workspace.ts"),
    ("src/app/router.ts", "src/views/settings.ts"),
    ("src/app/main.ts", "src/app/router.ts"),
    ("src/ui/theme.ts", "src/ui/palette.ts"),
    ("src/ui/appearance.ts", "src/ui/theme.ts"),
    ("src/app/preview.ts", "src/ui/appearance.ts"),
    ("src/app/main.ts", "src/ui/theme.ts"),
    ("src/cli/report.ts", "src/utils/format.ts"),
    ("src/plugins/registry.ts", "src/plugins/hooks.ts"),
    ("src/plugins/hooks.ts", "src/plugins/registry.ts"),
    ("src/app/plugins-preview.ts", "src/plugins/registry.ts"),
];

fn demo() -> Vec<ModuleAnalysis> {
    let mut ids: Vec<&str> = DEMO.iter().flat_map(|(a, b)| [*a, *b]).collect();
    ids.sort();
    ids.dedup();
    let mut modules: Vec<ModuleAnalysis> = ids
        .iter()
        .map(|id| ModuleAnalysis {
            id: id.to_string(),
            relative_path: id.to_string(),
            file_name: id.rsplit('/').next().unwrap().to_string(),
            extension: "ts".to_string(),
            directory: id.rsplit_once('/').unwrap().0.to_string(),
            lines_of_code: 1,
            imports: vec![],
            imported_by: vec![],
            fan_in: 0,
            fan_out: 0,
            dependency_depth: 0,
            blast_radius: 0,
            cycle_id: None,
            is_entry_like: false,
            unresolved_imports: vec![],
        })
        .collect();
    let mut edges: Vec<DependencyEdge> = DEMO
        .iter()
        .map(|(a, b)| DependencyEdge {
            source: a.to_string(),
            target: b.to_string(),
            kind: DependencyKind::Static,
        })
        .collect();
    edges.sort_by(|a, b| a.source.cmp(&b.source).then_with(|| a.target.cmp(&b.target)));
    calculate(&mut modules, &edges);
    modules
}

#[test]
fn restore_an_earlier_cut_while_another_cut_is_still_playing() {
    let a = demo();
    let mut s = Simulation::default();
    s.begin(&a, "src/core/config.ts");
    s.finish();
    s.begin(&a, "src/ui/palette.ts");
    s.selected = Some("src/core/config.ts".into());
    assert!(s.restore(&a, "src/core/config.ts"));
    assert!(s.live.is_none());
    assert_eq!(s.origins, vec!["src/ui/palette.ts"]);
    assert!(s.unavailable.contains("src/app/main.ts"));
    assert!(!s.unavailable.contains("src/core/auth.ts"));
    assert!(s.undo());
    assert_eq!(s.origins.len(), 2);
}

#[test]
fn cut_survives_selection_changes_and_can_be_restored() {
    let a = demo();
    let mut s = Simulation::default();
    assert!(s.begin(&a, "src/core/config.ts"));
    s.finish();
    s.selected = Some("src/utils/format.ts".into());
    assert_eq!(s.report().unwrap().total_affected, 13);
    s.selected = Some("src/core/config.ts".into());
    assert!(s.restore(&a, "src/core/config.ts"));
    assert!(s.unavailable.is_empty());
    assert!(s.undo());
    assert_eq!(s.unavailable.len(), 14);
    assert!(s.undo());
    assert!(s.unavailable.is_empty());
}

#[test]
fn restoration_preserves_shared_failures_and_history() {
    let a = demo();
    let mut s = Simulation::default();
    assert!(s.begin(&a, "src/core/config.ts"));
    s.finish();
    assert!(s.begin(&a, "src/ui/palette.ts"));
    s.finish();
    assert!(s.restore(&a, "src/core/config.ts"));
    assert!(!s.unavailable.contains("src/core/auth.ts"));
    assert!(s.unavailable.contains("src/ui/theme.ts"));
    assert!(s.unavailable.contains("src/app/main.ts"));
    assert_eq!(s.reports.len(), 1);
    assert!(s.restore(&a, "src/ui/palette.ts"));
    assert!(s.unavailable.is_empty());
}

#[test]
fn live_cut_can_be_restored_without_waiting_for_animation() {
    let a = demo();
    let mut s = Simulation::default();
    s.begin(&a, "src/core/config.ts");
    assert!(s.restore(&a, "src/core/config.ts"));
    assert!(s.live.is_none());
    assert!(s.unavailable.is_empty());
}

#[test]
fn undo_after_a_finished_cut_brings_back_the_earlier_state() {
    let a = demo();
    let mut s = Simulation::new();
    assert!(!s.can_undo());
    assert!(s.begin(&a, "src/ui/palette.ts"));
    assert!(!s.can_undo());
    assert!(s.preview(&a, "src/core/config.ts").is_none());
    s.finish();
    assert!(s.can_undo());
    assert_eq!(s.review.as_deref(), Some("src/ui/palette.ts"));
    assert!(s.unavailable.contains("src/app/preview.ts"));
    assert!(!s.begin(&a, "src/ui/theme.ts"));
    assert!(s.undo());
    assert!(s.unavailable.is_empty());
    assert!(s.origins.is_empty());
    assert!(s.reports.is_empty());
    assert_eq!(s.selected, None);
    assert!(!s.undo());
}

#[test]
fn restore_of_an_unknown_origin_changes_nothing() {
    let a = demo();
    let mut s = Simulation::new();
    assert!(!s.restore(&a, "src/core/config.ts"));
    s.begin(&a, "src/core/config.ts");
    assert!(!s.restore(&a, "src/ui/palette.ts"));
    assert!(s.live.is_some());
    s.reset();
    assert!(s.live.is_none());
    assert!(!s.can_undo());
}

#[test]
fn finishing_cuts_keeps_cut_modules_equal_to_the_reported_waves() {
    let a = demo();
    let mut s = Simulation::new();
    for id in ["src/core/config.ts", "src/ui/palette.ts"] {
        assert!(s.begin(&a, id));
        s.finish();
        let mut reported: Vec<String> = s
            .reports
            .iter()
            .flat_map(|r| r.waves.iter().flatten().cloned())
            .collect();
        reported.sort();
        reported.dedup();
        let mut cut: Vec<String> = a
            .iter()
            .map(|m| m.id.clone())
            .filter(|id| s.unavailable.contains(id))
            .collect();
        cut.sort();
        assert_eq!(cut, reported);
        let removed: Vec<String> = s.reports.iter().map(|r| r.removed_module_id.clone()).collect();
        assert_eq!(s.origins, removed);
    }
}
