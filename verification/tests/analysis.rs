use repotower::analysis::{assemble, count_lines, new_module, Extracted, PACKAGE_IMPORTS};
use repotower::context::{config_path_allowed, resolve_js, Context};
use repotower::model::{DependencyKind, FileSet};
use repotower::parser::{import_of, Parsed};
use repotower::scanner::Warnings;

#[test]
fn module_records_name_directory_extension_and_lines() {
    let m = new_module("src/ui/View.TSX", "a\n\n  \nb\r\n\t\n");
    assert_eq!(m.file_name, "View.TSX");
    assert_eq!(m.directory, "src/ui");
    assert_eq!(m.extension, "tsx");
    assert_eq!(m.lines_of_code, 2);
    let root = new_module("main.ts", "");
    assert_eq!(root.directory, ".");
    assert_eq!(root.lines_of_code, 0);
    let hidden = new_module(".hidden", "x");
    assert_eq!(hidden.extension, "");
    assert_eq!(count_lines("one\ntwo\n\u{3000}\nthree"), 3);
}

fn known(ids: &[&str]) -> FileSet {
    FileSet::from_ids(&ids.iter().map(|s| s.to_string()).collect())
}

#[test]
fn linking_keeps_first_edges_counts_externals_and_sorts_unresolved() {
    let ids = ["lib/index.ts", "main.ts", "value.ts"];
    let files = known(&ids);
    let parsed = Parsed {
        imports: vec![
            import_of("'./value'", true, DependencyKind::Static),
            import_of("'./lib'", true, DependencyKind::Static),
            import_of("'react'", true, DependencyKind::Static),
            import_of("'react'", true, DependencyKind::Static),
            import_of("'./missing'", true, DependencyKind::Dynamic),
            import_of("`./${x}`", false, DependencyKind::Dynamic),
            import_of("'./value'", true, DependencyKind::Require),
        ],
        has_errors: false,
    };
    let main = resolve_js("main.ts", parsed, &files);
    let empty = || Extracted { imports: vec![], has_errors: false };
    let extracted = vec![Ok(empty()), Ok(main), Ok(empty())];
    let modules = ids.iter().map(|id| new_module(id, "x")).collect();
    let result = assemble("demo", modules, &extracted, &files, false, Warnings::new());
    assert_eq!(result.repository_name, "demo");
    assert_eq!((result.total_modules, result.total_edges), (3, 2));
    assert_eq!(result.edges[0].source, "main.ts");
    assert_eq!(result.edges[0].target, "lib/index.ts");
    assert_eq!(result.edges[1].target, "value.ts");
    assert_eq!(result.edges[1].kind, DependencyKind::Static);
    assert_eq!(result.external_count, 1);
    assert_eq!(result.unresolved_count, 2);
    let main = &result.modules[1];
    assert_eq!(main.unresolved_imports[0].specifier, "./missing");
    assert_eq!(main.unresolved_imports[1].specifier, "`./${x}`");
    assert_eq!(main.imports, vec!["lib/index.ts", "value.ts"]);
    assert_eq!(result.modules[2].blast_radius, 1);
    assert_eq!(result.cycle_count, 0);
    assert_eq!(result.warnings, vec![PACKAGE_IMPORTS.to_string()]);
}

#[test]
fn parse_failures_and_errors_become_warnings_in_module_order() {
    let ids = ["a.go", "b.rs", "c.java"];
    let files = known(&ids);
    let extracted = vec![
        Err("boom".to_string()),
        Ok(Extracted { imports: vec![], has_errors: true }),
        Ok(Extracted { imports: vec![], has_errors: false }),
    ];
    let modules = ids.iter().map(|id| new_module(id, "x")).collect();
    let result = assemble("r", modules, &extracted, &files, true, Warnings::new());
    assert_eq!(
        result.warnings,
        vec![
            "无法解析 a.go：boom".to_string(),
            "b.rs 包含解析错误，依赖结果可能不完整。".to_string(),
            "项目配置超过读取限制（单文件 1 MiB、合计 16 MiB），部分模块路径可能无法解析。".to_string(),
            "Go 包导入展开为本地包的生产源码文件；不执行 go 命令，也不应用构建标签、平台筛选或 replace 指令。".to_string(),
            "Rust 分析静态模块声明和引用；不展开宏、不执行构建脚本、不应用 cfg 条件或非标准 Cargo 目标配置。".to_string(),
            "Java/C# 根据源码声明和类型引用匹配本地文件；不运行构建工具，不解析外部包、反射或生成代码，重复或不明确的类型不会猜测连线。".to_string(),
        ]
    );
}

#[test]
fn an_empty_repository_says_so() {
    let result = assemble("empty", vec![], &vec![], &known(&[]), false, Warnings::new());
    assert_eq!(result.total_modules, 0);
    assert_eq!(
        result.warnings,
        vec!["没有找到支持的源码文件。支持 Java、Python、C/C++、Go、Rust、C# 和 JS/TS。".to_string()]
    );
}

#[test]
fn configuration_reads_are_confined_and_bounded() {
    assert!(config_path_allowed("tsconfig.json"));
    assert!(config_path_allowed("./a/go.mod"));
    assert!(!config_path_allowed("/etc/passwd"));
    assert!(!config_path_allowed("a/../../b"));
    let mut context = Context::new("/repo", known(&["a.ts"]));
    assert!(!context.config_limited());
    assert!(context.cached("go.mod").is_none());
    assert!(context.may_read());
    assert!(context.accept(10));
    context.remember("go.mod", Some("module x".to_string()));
    assert_eq!(context.cached("go.mod"), Some(Some("module x".to_string())));
    assert!(!context.accept(1024 * 1024 + 1));
    assert!(context.config_limited());
    assert!(context.known().contains("a.ts"));
    assert_eq!(context.root(), "/repo");
}
