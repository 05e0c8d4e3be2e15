use repotower::languages::rust_tree::ModuleTree;
use repotower::languages::python_walk::{star_import, StarImport};
use repotower::languages::python_walk::{all_replaces, module_bindings, BindingFact};
use repotower::languages::csharp_walk::{csharp_file_facts, parse_csharp_source, receiver_kept, CsFact};
use repotower::languages::java_walk::{java_file_facts, parse_java_source, type_receivers, JavaFact};
use repotower::languages::python_walk::{compact_text, parse_python_source, python_import_sites, PythonSite};
use repotower::languages::c_walk::{includes_of, parse_c_family, IncludeSite};
use repotower::languages::go_walk::{go_tree_facts, parse_go_source, GoFact};
use repotower::languages::rust_walk::{
    expand_use, file_walk_allowed, parse_source, path_segments, strip_raw, walk_body, Location,
    WalkEvent,
};
use repotower::model::FileSet;
use repotower::syntax::SyntaxNode;

fn leaf(kind: &str, field: Option<&str>, text: &str) -> SyntaxNode {
    SyntaxNode {
        kind: kind.to_string(),
        field: field.map(|f| f.to_string()),
        text: text.to_string(),
        named: true,
        has_error: false,
        start: 0,
        children: vec![],
    }
}

fn node(kind: &str, field: Option<&str>, children: Vec<SyntaxNode>) -> SyntaxNode {
    SyntaxNode {
        kind: kind.to_string(),
        field: field.map(|f| f.to_string()),
        text: String::new(),
        named: true,
        has_error: false,
        start: 0,
        children,
    }
}

fn root_location() -> Location {
    Location {
        file: "src/lib.rs".to_string(),
        root: "src/lib.rs".to_string(),
        scope: vec![],
        children_dir: "src".to_string(),
        attribute_dir: "src".to_string(),
    }
}

#[test]
fn strips_every_raw_prefix() {
    assert_eq!(strip_raw("r#r#type"), "type");
    assert_eq!(strip_raw("r#"), "");
    assert_eq!(strip_raw("rust"), "rust");
}

#[test]
fn expands_nested_use_lists_and_globs() {
    // use crate::{a::B, c::*};
    let tree = node(
        "scoped_use_list",
        Some("argument"),
        vec![
            leaf("crate", Some("path"), "crate"),
            node(
                "use_list",
                Some("list"),
                vec![
                    node(
                        "scoped_identifier",
                        None,
                        vec![leaf("identifier", Some("path"), "a"), leaf("identifier", Some("name"), "B")],
                    ),
                    node("use_wildcard", None, vec![leaf("identifier", None, "c")]),
                ],
            ),
        ],
    );
    let paths = expand_use(&tree, &vec![]);
    assert_eq!(
        paths,
        vec![
            vec!["crate".to_string(), "a".to_string(), "B".to_string()],
            vec!["crate".to_string(), "c".to_string(), "*".to_string()],
        ]
    );
    assert_eq!(path_segments(&leaf("identifier", None, "r#match")), vec!["match".to_string()]);
}

#[test]
fn walks_module_files_uses_and_items_of_parsed_source() {
    let source = "mod a;\n#[path = \"x.rs\"]\nmod b;\nuse crate::a::B;\nfn f() {}\nmod c { struct S; }\n";
    let tree = parse_source(source).unwrap();
    assert!(!tree.has_error);
    let sources = FileSet::from_ids(&vec!["src/a.rs".to_string(), "src/x.rs".to_string()]);
    let events = walk_body(&tree, &root_location(), &sources);
    let mut seen = Vec::new();
    for event in &events {
        seen.push(match event {
            WalkEvent::Import { specifier, target } => format!("import {specifier} -> {target}"),
            WalkEvent::WalkFile { location } => format!(
                "walk {} {:?} {} {}",
                location.file, location.scope, location.children_dir, location.attribute_dir
            ),
            WalkEvent::Use { scope, path } => format!("use {:?} {}", scope, path.join("::")),
            WalkEvent::Symbol { scope, name } => format!("symbol {:?} {name}", scope),
            WalkEvent::Register { scope } => format!("register {:?}", scope),
            WalkEvent::Unresolved { specifier, reason } => format!("unresolved {specifier}: {reason}"),
        });
    }
    assert_eq!(
        seen,
        vec![
            "import mod a -> src/a.rs".to_string(),
            "walk src/a.rs [\"a\"] src/a src".to_string(),
            "import mod b -> src/x.rs".to_string(),
            "walk src/x.rs [\"b\"] src/x src".to_string(),
            "use [] crate::a::B".to_string(),
            "symbol [] B".to_string(),
            "symbol [] f".to_string(),
            "register [\"c\"]".to_string(),
            "symbol [\"c\"] S".to_string(),
        ]
    );
}

#[test]
fn reports_missing_module_files_and_stops_below_depth_64() {
    let tree = parse_source("mod missing;\n").unwrap();
    let events = walk_body(&tree, &root_location(), &FileSet::new());
    assert_eq!(events.len(), 1);
    assert!(matches!(&events[0], WalkEvent::Unresolved { specifier, .. } if specifier == "mod missing"));
    let mut deep = root_location();
    deep.scope = (0..65).map(|i| format!("m{i}")).collect();
    assert!(walk_body(&tree, &deep, &FileSet::new()).is_empty());
    assert!(!file_walk_allowed(&vec!["src/lib.rs".to_string()], &root_location(), 0));
    assert!(!file_walk_allowed(&vec![], &root_location(), 50_001));
    assert!(file_walk_allowed(&vec![], &root_location(), 50_000));
}

#[test]
fn go_walk_finds_package_imports_declarations_and_shadows() {
    let source = "package main\nimport (\n\t\"fmt\"\n\tx \"a/b\"\n\tbad \"\\q\"\n)\nvar Top = 1\nfunc F(p int) {\n\ty := p\n\tfmt.Println(y, Top)\n}\n";
    let tree = parse_go_source(source).unwrap();
    assert!(!tree.has_error);
    let facts = go_tree_facts(&tree);
    assert_eq!(facts[0], GoFact::Package("main".to_string()));
    let imports: Vec<&GoFact> = facts.iter().filter(|f| matches!(f, GoFact::Import(_))).collect();
    assert_eq!(
        imports,
        vec![
            &GoFact::Import(Ok("fmt".to_string())),
            &GoFact::Import(Ok("a/b".to_string())),
            &GoFact::Import(Err("\"\\q\"".to_string())),
        ]
    );
    for expected in [
        GoFact::Shadow("fmt".to_string()),
        GoFact::Shadow("x".to_string()),
        GoFact::Declaration("Top".to_string()),
        GoFact::Declaration("F".to_string()),
        GoFact::Shadow("p".to_string()),
        GoFact::Shadow("y".to_string()),
        GoFact::Reference("Top".to_string()),
        GoFact::Reference("y".to_string()),
    ] {
        assert!(facts.contains(&expected), "{expected:?}");
    }
    assert!(!facts.contains(&GoFact::Reference("F".to_string())));
    assert!(!facts.contains(&GoFact::Declaration("y".to_string())));
}

#[test]
fn c_walk_reads_quoted_angled_computed_and_next_includes() {
    let source = "#include \"a.h\"\n#include <stdio.h>\n#define H \"b.h\"\n#include H\n#include_next <c.h>\nint main(void) { return 0; }\n// #include \"no.h\"\n";
    let tree = parse_c_family("src/main.c", "c", false, source).unwrap();
    let sites = includes_of(&tree);
    assert_eq!(
        sites,
        vec![
            IncludeSite::Path { specifier: "a.h".to_string(), quoted: true },
            IncludeSite::Path { specifier: "stdio.h".to_string(), quoted: false },
            IncludeSite::Computed { text: "H".to_string() },
            IncludeSite::Next { text: "#include_next <c.h>".to_string() },
        ]
    );
}

#[test]
fn python_walk_reads_import_statements_last_child_first() {
    let source = "import os, a.b as c\nfrom . import x, y\nfrom .m import *\nfrom __future__ import annotations\nif True:\n    import z\n";
    let tree = parse_python_source(source).unwrap();
    assert!(!tree.has_error);
    let sites = python_import_sites(&tree);
    assert_eq!(
        sites,
        vec![
            PythonSite::Import { name: "z".to_string() },
            PythonSite::Future,
            PythonSite::From { module: ".m".to_string(), names: vec![], wildcard: true, start: 39 },
            PythonSite::From {
                module: ".".to_string(),
                names: vec!["x".to_string(), "y".to_string()],
                wildcard: false,
                start: 20,
            },
            PythonSite::Import { name: "os".to_string() },
            PythonSite::Import { name: "a.b".to_string() },
        ]
    );
    assert_eq!(compact_text(" a . b\t"), "a.b");
}

#[test]
fn java_walk_finds_package_imports_declarations_and_references() {
    let source = "package com.acme;\nimport java.util.List;\nimport static com.acme.Util.*;\npublic class Outer<T> {\n  class Inner {}\n  void m(List<T> xs) { Helper.run(); xs.size(); class Local {} }\n}\n";
    let tree = parse_java_source(source).unwrap();
    assert!(!tree.has_error);
    let file = java_file_facts(&tree);
    assert_eq!(file.package, "com.acme");
    let imports: Vec<(String, bool, bool)> = file
        .imports
        .iter()
        .map(|i| (i.name.clone(), i.wildcard, i.is_static))
        .collect();
    assert_eq!(
        imports,
        vec![
            ("java.util.List".to_string(), false, false),
            ("com.acme.Util".to_string(), true, true),
        ]
    );
    for expected in [
        JavaFact::Declaration { qualified: "com.acme.Outer".to_string(), simple: "Outer".to_string() },
        JavaFact::Declaration { qualified: "com.acme.Outer.Inner".to_string(), simple: "Inner".to_string() },
        JavaFact::LocalType("Local".to_string()),
        JavaFact::Reference("List".to_string()),
        JavaFact::Receiver("Helper".to_string()),
        JavaFact::Receiver("xs".to_string()),
        JavaFact::ValueName("xs".to_string()),
    ] {
        assert!(file.facts.contains(&expected), "{expected:?}");
    }
    assert!(!file.facts.contains(&JavaFact::Reference("T".to_string())));
    assert!(!file.facts.iter().any(|f| matches!(f, JavaFact::Declaration { simple, .. } if simple == "Local")));
    assert_eq!(
        type_receivers(&vec!["Helper".to_string(), "xs.a".to_string()], &vec!["xs".to_string()]),
        vec!["Helper".to_string()]
    );
}

#[test]
fn csharp_walk_finds_namespaces_usings_declarations_and_references() {
    let source = "using System;\nusing Alias = Acme.Box<Acme.Item>;\nnamespace Acme.Core {\n  public partial class Repo<T> : IRepo {\n    List<Item> items;\n    void Run(Item x) { Helper.Go(); x.Do(); }\n  }\n}\n";
    let tree = parse_csharp_source(source).unwrap();
    assert!(!tree.has_error);
    let facts = csharp_file_facts(&tree);
    assert_eq!(facts[0], CsFact::Namespace(String::new()));
    assert!(facts.contains(&CsFact::Namespace("Acme.Core".to_string())));
    assert!(facts.contains(&CsFact::Declaration { qualified: "Acme.Core.Repo`1".to_string(), partial: true }));
    let usings: Vec<(String, Option<String>)> = facts
        .iter()
        .filter_map(|f| match f {
            CsFact::Using { name, alias, .. } => Some((name.clone(), alias.clone())),
            _ => None,
        })
        .collect();
    assert_eq!(
        usings,
        vec![
            ("System".to_string(), None),
            ("Acme.Box`1".to_string(), Some("Alias".to_string())),
        ]
    );
    let referenced: Vec<String> = facts
        .iter()
        .filter_map(|f| match f {
            CsFact::Reference { name, .. } => Some(name.clone()),
            _ => None,
        })
        .collect();
    for name in ["Acme.Item", "IRepo", "List`1", "Item"] {
        assert!(referenced.contains(&name.to_string()), "{name}");
    }
    assert!(!referenced.contains(&"Acme.Box`1".to_string()));
    assert!(facts.contains(&CsFact::ValueName("x".to_string())));
    assert!(receiver_kept("Helper", &vec!["x".to_string()]));
    assert!(!receiver_kept("x.Inner", &vec!["x".to_string()]));
}

#[test]
fn python_bindings_record_names_getattr_and_literal_all() {
    let source = "def __getattr__(name):\n    pass\nclass K:\n    pass\na, (b, c) = 1, (2, 3)\n__all__ = [\"K\", 'a']\nx: int\nimport os.path as p, sys.mod\n__all__ = [name]\n";
    let tree = parse_python_source(source).unwrap();
    let facts = module_bindings(&tree, false);
    assert!(facts.contains(&BindingFact::Dynamic));
    let bound: Vec<String> = facts
        .iter()
        .filter_map(|f| match f {
            BindingFact::Bind { name, .. } => Some(name.clone()),
            _ => None,
        })
        .collect();
    for name in ["__getattr__", "K", "a", "b", "c", "__all__", "p", "sys"] {
        assert!(bound.contains(&name.to_string()), "{name}");
    }
    assert!(!bound.contains(&"x".to_string()));
    let alls: Vec<Option<Vec<String>>> = facts
        .iter()
        .filter_map(|f| match f {
            BindingFact::All { names, .. } => Some(names.clone()),
            _ => None,
        })
        .collect();
    assert_eq!(alls, vec![None, Some(vec!["K".to_string(), "a".to_string()])]);
    let stub = module_bindings(&tree, true);
    assert!(stub.iter().any(|f| matches!(f, BindingFact::Bind { name, .. } if name == "x")));
    assert!(all_replaces(None, 3));
    assert!(all_replaces(Some(2), 3));
    assert!(!all_replaces(Some(3), 3));
}

#[test]
fn deeply_nested_sources_of_each_language_are_walked() {
    let depth = 5_000;
    let open = "(".repeat(depth);
    let close = ")".repeat(depth);
    let go = format!("package main\nimport \"fmt\"\nvar x = {open}1{close}\n");
    assert!(go_tree_facts(&parse_go_source(&go).unwrap()).contains(&GoFact::Import(Ok("fmt".to_string()))));
    let python = format!("import os\nx = {open}1{close}\n");
    assert!(python_import_sites(&parse_python_source(&python).unwrap()).contains(&PythonSite::Import { name: "os".to_string() }));
    let c = format!("#include \"a.h\"\nint x = {open}1{close};\n");
    assert_eq!(includes_of(&parse_c_family("a.c", "c", false, &c).unwrap()).len(), 1);
    let java = format!("package p;\nclass A {{ int x = {open}1{close}; }}\n");
    assert_eq!(java_file_facts(&parse_java_source(&java).unwrap()).package, "p");
    let csharp = format!("class A {{ int x = {open}1{close}; }}\n");
    assert!(csharp_file_facts(&parse_csharp_source(&csharp).unwrap()).len() > 1);
    let rust = format!("use crate::a::B;\nfn f() {{ let x = {open}1{close}; }}\n");
    let tree = parse_source(&rust).unwrap();
    assert!(!walk_body(&tree, &root_location(), &FileSet::new()).is_empty());
    repotower::syntax::dispose(tree);
}

#[test]
fn star_imports_follow_the_literal_all_of_the_package() {
    use_star_rules();
}

fn use_star_rules() {
    let names = vec!["a".to_string(), "b".to_string()];
    assert_eq!(
        star_import("m.py", 10, true, Some("pkg/__init__.py"), Some(3), Some(&names)),
        StarImport::Members(names.clone())
    );
    assert_eq!(star_import("m.py", 10, true, Some("pkg/__init__.py"), Some(3), None), StarImport::Dynamic);
    assert_eq!(star_import("m.py", 10, false, Some("pkg/__init__.py"), Some(3), Some(&names)), StarImport::Nothing);
    assert_eq!(star_import("m.py", 10, true, Some("pkg/__init__.py"), None, Some(&names)), StarImport::Nothing);
    assert_eq!(
        star_import("pkg/__init__.py", 10, true, Some("pkg/__init__.py"), Some(12), Some(&names)),
        StarImport::Nothing
    );
    assert_eq!(
        star_import("pkg/__init__.py", 10, true, Some("pkg/__init__.py"), Some(3), Some(&names)),
        StarImport::Members(names)
    );
}

#[test]
fn module_tree_records_files_names_and_walks() {
    let mut tree = ModuleTree::new();
    let scope = vec!["a".to_string()];
    tree.register("src/lib.rs", &scope, "src/a.rs");
    tree.register("src/lib.rs", &scope, "src/a.rs");
    tree.register("src/lib.rs", &scope, "src/a/extra.rs");
    tree.register("src/lib.rs", &vec![], "src/lib.rs");
    tree.define("src/lib.rs", &scope, "Thing");
    tree.define("src/lib.rs", &vec!["missing".to_string()], "Other");
    assert_eq!(tree.modules().len(), 2);
    assert_eq!(tree.modules()[0].files, vec!["src/a.rs".to_string(), "src/a/extra.rs".to_string()]);
    assert!(tree.modules()[0].symbols.contains("Thing"));
    assert!(!tree.modules()[1].symbols.contains("Other"));
    assert!(tree.visit("src/lib.rs", &scope, "src/a.rs"));
    assert!(!tree.visit("src/lib.rs", &scope, "src/a.rs"));
    assert!(tree.visit("src/main.rs", &scope, "src/a.rs"));
    assert_eq!(tree.visits(), 2);
}
