use repotower::languages::c_family::{is_source, project_path, split_command};
use repotower::languages::go::{module_name, resolve_package, unquote, GoModule, GoPackage};
use repotower::languages::python::{is_python, member_specifier, ModuleKind, PythonIndex};
use repotower::languages::rust::{
    children_directory, crate_name, inline_directory, is_crate_root, module_file, normalize,
    read_path_attribute,
};
use repotower::model::FileSet;
use repotower::paths;
use repotower::resolver::Resolution;

fn words(v: &[&str]) -> Option<Vec<String>> {
    Some(v.iter().map(|s| s.to_string()).collect())
}

#[test]
fn compile_commands_split_like_a_shell() {
    assert_eq!(
        split_command("gcc -I\"inc dir\" -DX='a b' file.c"),
        words(&["gcc", "-Iinc dir", "-DX=a b", "file.c"])
    );
    assert_eq!(split_command("cc a\\ b  c"), words(&["cc", "a b", "c"]));
    assert_eq!(split_command("cc \"a\\\"b\""), words(&["cc", "a\"b"]));
    assert_eq!(split_command("cc ''"), words(&["cc", ""]));
    assert_eq!(split_command(""), words(&[]));
    assert_eq!(split_command("cc x.c; rm -rf /"), None);
    assert_eq!(split_command("cc $HOME/x.c"), None);
    assert_eq!(split_command("cc 'open"), None);
    assert_eq!(split_command("cc a.c\nrm b"), None);
}

#[test]
fn c_family_sources_are_recognised_by_extension() {
    assert!(is_source("src/a.c"));
    assert!(is_source("include/Vector.HPP"));
    assert!(is_source("x.inl"));
    assert!(!is_source("src/lib.rs"));
    assert!(!is_source("Makefile"));
}

#[test]
fn compilation_database_paths_stay_inside_the_project() {
    assert_eq!(project_path("/repo", "build", "../src/a.c"), Some("src/a.c".to_string()));
    assert_eq!(project_path("/repo", "", "/repo/inc/x.h"), Some("inc/x.h".to_string()));
    assert_eq!(project_path("/repo", "", "/repo"), Some(String::new()));
    assert_eq!(project_path("/repo", "build", "..\\inc"), Some("inc".to_string()));
    assert_eq!(project_path("/repo", "", "/other/x.h"), None);
    assert_eq!(project_path("/repo", "", "/repository/x.h"), None);
    assert_eq!(project_path("/repo", "", "../../x.h"), None);
    assert_eq!(project_path("/repo", "", "C:x.h"), None);
    assert_eq!(project_path("/repo", "", ""), None);
    assert_eq!(project_path("/repo", "", "a\0b"), None);
}

#[test]
fn relative_paths_are_walked_lexically() {
    assert_eq!(paths::normalize("a/b", "../c"), Some("a/c".to_string()));
    assert_eq!(paths::normalize("a//b/", "./x"), Some("a/b/x".to_string()));
    assert_eq!(paths::normalize("", ".."), None);
    assert_eq!(paths::normalize("a", "../../b"), None);
    assert_eq!(paths::join_path("", "x"), "x");
    assert_eq!(paths::join_path("d", ""), "d");
    assert_eq!(paths::join_path("d", "x"), "d/x");
    assert_eq!(paths::child_path("d", ""), "d/");
    assert!(paths::within("a/b", "a"));
    assert!(paths::within("a", "a"));
    assert!(!paths::within("ab", "a"));
    assert!(paths::within("anything", ""));
    assert_eq!(paths::parent("a/b/c.go"), "a/b");
    assert_eq!(paths::parent("c.go"), "");
}

#[test]
fn go_mod_declares_its_module_outside_comments() {
    assert_eq!(
        module_name("// module wrong\nmodule example.com/m // tail\n"),
        Some("example.com/m".to_string())
    );
    assert_eq!(
        module_name("/* module a\n still */ module \"b\\u0063\"\n"),
        Some("bc".to_string())
    );
    assert_eq!(module_name("module `raw`"), Some("raw".to_string()));
    assert_eq!(module_name("go 1.22\n"), None);
    assert_eq!(module_name("module\nmodule later"), None);
    assert_eq!(module_name("module \"\"\nmodule later"), Some("later".to_string()));
    assert_eq!(module_name("module \"bad"), None);
}

#[test]
fn go_string_literals_decode_raw_and_interpreted_forms() {
    assert_eq!(unquote("`a\rb`"), Some("ab".to_string()));
    assert_eq!(unquote("\"a\\u0062\""), Some("ab".to_string()));
    assert_eq!(unquote("\"fmt\""), Some("fmt".to_string()));
    assert_eq!(unquote("fmt"), None);
}

fn module(directory: &str, name: &str) -> GoModule {
    GoModule { directory: directory.to_string(), name: name.to_string() }
}

fn package(directory: &str, files: &[&str], names: &[&str]) -> GoPackage {
    GoPackage {
        directory: directory.to_string(),
        files: files.iter().map(|s| s.to_string()).collect(),
        names: names.iter().map(|s| s.to_string()).collect(),
    }
}

#[test]
fn go_import_paths_name_package_directories() {
    let modules = vec![module("", "example.com/m"), module("sub", "example.com/m/sub")];
    let packages = vec![
        package("pkg", &["pkg/a.go", "pkg/b.go"], &["pkg", "pkg"]),
        package("sub/x", &["sub/x/x.go"], &["x"]),
        package("mixed", &["mixed/a.go", "mixed/b.go"], &["a", "b"]),
    ];
    assert_eq!(
        resolve_package("example.com/m/pkg", &modules, &packages),
        vec![
            Resolution::Internal("pkg/a.go".to_string()),
            Resolution::Internal("pkg/b.go".to_string())
        ]
    );
    assert_eq!(
        resolve_package("example.com/m/sub/x", &modules, &packages),
        vec![Resolution::Internal("sub/x/x.go".to_string())]
    );
    assert_eq!(resolve_package("fmt", &modules, &packages), vec![Resolution::External]);
    assert_eq!(
        resolve_package("./pkg", &modules, &packages),
        vec![Resolution::Unresolved("Go relative or absolute imports are not resolved in module mode.")]
    );
    assert_eq!(
        resolve_package("example.com/m/../pkg", &modules, &packages),
        vec![Resolution::Unresolved("Go import path contains an invalid path component.")]
    );
    assert_eq!(
        resolve_package("example.com/m/none", &modules, &packages),
        vec![Resolution::Unresolved("Go local package has no scanned production source files.")]
    );
    assert_eq!(
        resolve_package("example.com/m/mixed", &modules, &packages),
        vec![Resolution::Unresolved("Go directory contains multiple production package names.")]
    );
    let nested = vec![module("", "example.com/m"), module("sub", "other.org/s")];
    assert_eq!(
        resolve_package("example.com/m/sub/x", &nested, &packages),
        vec![Resolution::Unresolved("Go import crosses a nested module boundary.")]
    );
    let twins = vec![module("a", "example.com/t"), module("b", "example.com/t")];
    assert_eq!(
        resolve_package("example.com/t/x", &twins, &packages),
        vec![Resolution::Unresolved("Go module path matches multiple local modules.")]
    );
}

#[test]
fn rust_path_attributes_and_module_files() {
    assert_eq!(normalize("src", "../lib.rs"), Some("lib.rs".to_string()));
    assert_eq!(normalize("src/a", "b/c.rs"), Some("src/a/b/c.rs".to_string()));
    assert_eq!(normalize("src", "/etc/passwd"), None);
    assert_eq!(normalize("src", "C:/x.rs"), None);
    assert_eq!(normalize("src", "a\\b.rs"), None);
    assert_eq!(normalize("", "../x.rs"), None);
    assert_eq!(
        read_path_attribute(" #[path = \"a/b.rs\"] "),
        Some(Ok("a/b.rs".to_string()))
    );
    assert_eq!(read_path_attribute("#[path = r\"x.rs\"]"), Some(Ok("x.rs".to_string())));
    assert_eq!(read_path_attribute("#[path=\"a\\u0062.rs\"]"), Some(Ok("ab.rs".to_string())));
    assert_eq!(
        read_path_attribute("#[path = concat!(\"a\")]"),
        Some(Err("Rust module path is outside the selected project or is not a literal."))
    );
    assert_eq!(read_path_attribute("#[cfg(test)]"), None);
    assert_eq!(read_path_attribute("#[pathx = \"a.rs\"]"), None);
}

#[test]
fn rust_crate_roots_and_manifest_names() {
    assert!(is_crate_root("src/lib.rs"));
    assert!(is_crate_root("main.rs"));
    assert!(is_crate_root("src/bin/tool.rs"));
    assert!(is_crate_root("tests/it.rs"));
    assert!(is_crate_root("examples/demo.rs"));
    assert!(!is_crate_root("src/util.rs"));
    assert_eq!(
        crate_name("[package]\nname = \"my-crate\"\nversion = \"0.1.0\"\n"),
        Some("my_crate".to_string())
    );
    assert_eq!(
        crate_name("[package]\nname = \"pkg\"\n\n[lib]\nname = 'core-lib'\n"),
        Some("core_lib".to_string())
    );
    assert_eq!(
        crate_name("[dependencies]\nname = \"dep\"\n[package]\nversion = \"1\""),
        None
    );
    assert_eq!(crate_name("[package]\r\n  name   =  \"spaced\"  \r\n"), Some("spaced".to_string()));
}

fn python_index(ids: &[&str]) -> PythonIndex {
    let ids: Vec<String> = ids.iter().map(|s| s.to_string()).collect();
    PythonIndex::new(&ids, FileSet::from_ids(&ids))
}

#[test]
fn python_absolute_imports_walk_packages_and_src_root() {
    let index = python_index(&[
        "pkg/__init__.py",
        "pkg/mod.py",
        "src/lib/__init__.py",
        "src/lib/x.pyi",
        "ns/part/y.py",
    ]);
    let found = index.absolute("pkg.mod").ok().unwrap();
    assert_eq!(found.files, vec!["pkg/__init__.py".to_string(), "pkg/mod.py".to_string()]);
    assert_eq!(found.base, "pkg/mod");
    assert_eq!(found.kind, ModuleKind::File);
    let stub = index.absolute("lib.x").ok().unwrap();
    assert_eq!(stub.files, vec!["src/lib/__init__.py".to_string(), "src/lib/x.pyi".to_string()]);
    let namespace = index.absolute("ns.part").ok().unwrap();
    assert_eq!(namespace.kind, ModuleKind::Namespace);
    assert!(namespace.files.is_empty());
    assert_eq!(index.absolute("os.path").err(), Some(Resolution::External));
    assert_eq!(
        index.absolute("pkg.missing").err(),
        Some(Resolution::Unresolved(
            "Python 项目内模块未找到；目标可能不存在、被忽略或使用自定义导入路径。"
        ))
    );
    assert!(index.absolute("pkg.mod.deeper").is_err());
}

#[test]
fn python_relative_imports_climb_packages() {
    let index = python_index(&["pkg/__init__.py", "pkg/mod.py", "pkg/sub/__init__.py", "pkg/sub/leaf.py"]);
    let parent = index.relative("pkg/sub/leaf.py", "..").ok().unwrap();
    assert_eq!(parent.kind, ModuleKind::Package);
    assert_eq!(parent.base, "pkg");
    let sibling = index.relative("pkg/sub/leaf.py", "..mod").ok().unwrap();
    assert_eq!(sibling.files, vec!["pkg/__init__.py".to_string(), "pkg/mod.py".to_string()]);
    assert_eq!(
        index.relative("pkg/mod.py", "...x").err(),
        Some(Resolution::Unresolved("Python 相对导入超出可确定的包范围。"))
    );
}

#[test]
fn python_namespace_spanning_both_roots_keeps_the_other_base() {
    let index = python_index(&["ns/a.py", "src/ns/b.py", "src/other.py"]);
    let found = index.absolute("ns").ok().unwrap();
    assert_eq!(found.kind, ModuleKind::Namespace);
    assert_eq!(found.base, "ns");
    assert_eq!(found.alternatives, vec!["src/ns".to_string()]);
}

#[test]
fn python_names_and_members() {
    assert!(is_python("a/b.py"));
    assert!(is_python("a/b.pyi"));
    assert!(!is_python("a/b.pyc"));
    assert_eq!(member_specifier("pkg", "x"), "pkg.x");
    assert_eq!(member_specifier("..", "x"), "..x");
}

fn java_index() -> repotower::languages::java::JavaIndex {
    let declarations: Vec<(String, String)> = vec![
        ("com.app.Service".to_string(), "src/com/app/Service.java".to_string()),
        ("com.app.Service.Inner".to_string(), "src/com/app/Service.java".to_string()),
        ("com.app.Model".to_string(), "src/com/app/Model.java".to_string()),
        ("com.util.Model".to_string(), "src/com/util/Model.java".to_string()),
        ("com.twin.Twin".to_string(), "a/Twin.java".to_string()),
        ("com.twin.Twin".to_string(), "b/Twin.java".to_string()),
        ("com.twin.Twin".to_string(), "a/Twin.java".to_string()),
    ];
    let packages = vec!["com.app".to_string(), "com.util".to_string(), "com.twin".to_string()];
    repotower::languages::java::JavaIndex::new(&declarations, &packages)
}

fn java_import(name: &str, wildcard: bool, is_static: bool) -> repotower::languages::java::JavaImport {
    repotower::languages::java::JavaImport { name: name.to_string(), wildcard, is_static }
}

#[test]
fn java_imports_name_declared_types() {
    let index = java_index();
    assert_eq!(
        index.lookup("com.app.Model"),
        Some(Resolution::Internal("src/com/app/Model.java".to_string()))
    );
    assert_eq!(
        index.lookup("com.twin.Twin"),
        Some(Resolution::Unresolved(
            "Java type has multiple possible source files; build configuration and classpath selection were not guessed."
        ))
    );
    assert_eq!(index.lookup("java.util.List"), None);
    assert!(index.local_name("com.app.Missing"));
    assert!(!index.local_name("org.other.Thing"));
    assert_eq!(
        index.explicit(&java_import("com.app.Service.helper", false, true)),
        Resolution::Internal("src/com/app/Service.java".to_string())
    );
    assert_eq!(
        index.explicit(&java_import("com.app.Gone", false, false)),
        Resolution::Unresolved(
            "Java project type was not found; it may be ignored, generated, or outside the scanned source set."
        )
    );
    assert_eq!(index.explicit(&java_import("java.util.List", false, false)), Resolution::External);
}

#[test]
fn java_references_prefer_imports_then_package_then_wildcards() {
    let index = java_index();
    let mut locals = FileSet::new();
    locals.insert("Local");
    let imports = vec![java_import("com.util.Model", false, false), java_import("com.app", true, false)];
    assert_eq!(
        index.reference("com.app", &imports, &locals, "Model"),
        Some(Resolution::Internal("src/com/util/Model.java".to_string()))
    );
    assert_eq!(
        index.reference("com.other", &imports, &locals, "Service.Inner"),
        Some(Resolution::Internal("src/com/app/Service.java".to_string()))
    );
    assert_eq!(index.reference("com.app", &imports, &locals, "Local"), None);
    assert_eq!(index.reference("com.app", &imports, &locals, "String"), None);
    let both = vec![java_import("com.app", true, false), java_import("com.util", true, false)];
    assert_eq!(
        index.reference("org.x", &both, &locals, "Model"),
        Some(Resolution::Unresolved(
            "Java type has multiple possible source files; build configuration and classpath selection were not guessed."
        ))
    );
    assert_eq!(
        index.reference("org.x", &both, &locals, "com.app.Nothing"),
        Some(Resolution::Unresolved(
            "Java project type was not found; it may be ignored, generated, or outside the scanned source set."
        ))
    );
    assert_eq!(repotower::languages::java::qualify("", "A"), "A");
    assert_eq!(repotower::languages::java::qualify("p.q", "A"), "p.q.A");
}

use repotower::languages::csharp::{CsIndex, CsReference, CsScope, CsUsing};

fn cs_index() -> CsIndex {
    let declarations: Vec<(String, String, bool)> = vec![
        ("App.Models.User".to_string(), "Models/User.cs".to_string(), false),
        ("App.Models.Part".to_string(), "b.cs".to_string(), true),
        ("App.Models.Part".to_string(), "a.cs".to_string(), true),
        ("App.Dup".to_string(), "x.cs".to_string(), false),
        ("App.Dup".to_string(), "y.cs".to_string(), false),
        ("App.Outer.Inner".to_string(), "Outer.cs".to_string(), false),
        ("App.FooAttribute".to_string(), "Foo.cs".to_string(), false),
    ];
    let namespaces = vec!["App.Models".to_string()];
    CsIndex::new(&declarations, &namespaces)
}

fn cs_using(name: &str, alias: Option<&str>, scope: &str, is_static: bool, global: bool) -> CsUsing {
    CsUsing {
        name: name.to_string(),
        alias: alias.map(|a| a.to_string()),
        scope: scope.to_string(),
        is_static,
        global,
    }
}

fn cs_reference(name: &str, namespace: &str, containers: &[&str], generics: &[&str], attribute: bool) -> CsReference {
    let mut set = FileSet::new();
    for g in generics {
        set.insert(g);
    }
    CsReference {
        name: name.to_string(),
        scope: CsScope {
            namespace: namespace.to_string(),
            containers: containers.iter().map(|c| c.to_string()).collect(),
            generics: set,
        },
        attribute,
    }
}

const CS_AMBIGUOUS: &str =
    "C# type has multiple possible source declarations; project and assembly selection was not guessed.";
const CS_MISSING: &str =
    "C# project type was not found; it may be ignored, generated, or outside the scanned source set.";

#[test]
fn csharp_declarations_partial_types_and_namespaces() {
    let index = cs_index();
    assert_eq!(
        index.lookup("App.Models.Part"),
        Some(vec![
            Resolution::Internal("a.cs".to_string()),
            Resolution::Internal("b.cs".to_string())
        ])
    );
    assert_eq!(index.lookup("App.Dup"), Some(vec![Resolution::Unresolved(CS_AMBIGUOUS)]));
    assert_eq!(index.lookup("System.String"), None);
    assert!(index.local_name("App.Models.Nope"));
    assert!(index.local_name("App.Nope"));
    assert!(!index.local_name("System.Nope"));
    assert_eq!(index.anchored(&cs_using("Models", None, "App", false, false)).name, "App.Models");
    assert_eq!(index.anchored(&cs_using("System", None, "App", false, false)).name, "System");
    assert_eq!(
        index.anchored(&cs_using("global::Models", None, "App", false, false)).name,
        "global::Models"
    );
}

#[test]
fn csharp_references_follow_lexical_scopes_aliases_and_usings() {
    let index = cs_index();
    let none: Vec<CsUsing> = Vec::new();
    let user = vec![Resolution::Internal("Models/User.cs".to_string())];
    assert_eq!(index.resolve(&none, &none, &cs_reference("User", "App.Models", &[], &[], false)), user);
    assert_eq!(
        index.resolve(&none, &none, &cs_reference("Inner", "App", &["Outer"], &[], false)),
        vec![Resolution::Internal("Outer.cs".to_string())]
    );
    assert_eq!(
        index.resolve(&none, &none, &cs_reference("Foo", "App", &[], &[], true)),
        vec![Resolution::Internal("Foo.cs".to_string())]
    );
    assert!(index.resolve(&none, &none, &cs_reference("T", "App", &[], &["T"], false)).is_empty());
    assert!(index.resolve(&none, &none, &cs_reference("var", "App", &[], &[], false)).is_empty());
    let alias = vec![cs_using("App.Models.User", Some("U"), "", false, false)];
    assert_eq!(index.resolve(&alias, &none, &cs_reference("U", "Other", &[], &[], false)), user);
    let import = vec![cs_using("App.Models", None, "", false, false)];
    assert_eq!(index.resolve(&import, &none, &cs_reference("User", "Other", &[], &[], false)), user);
    assert_eq!(index.resolve(&none, &import, &cs_reference("User", "Other", &[], &[], false)), user);
    let scoped = vec![cs_using("App.Models", None, "Elsewhere", false, false)];
    assert!(index.resolve(&scoped, &none, &cs_reference("User", "Other", &[], &[], false)).is_empty());
    assert_eq!(
        index.resolve(&none, &none, &cs_reference("global::App.Models.User", "Other", &[], &[], false)),
        user
    );
    assert_eq!(
        index.resolve(&none, &none, &cs_reference("global::App.Models.Gone", "Other", &[], &[], false)),
        vec![Resolution::Unresolved(CS_MISSING)]
    );
    assert_eq!(
        index.resolve(&none, &none, &cs_reference("App.Models.Gone", "Other", &[], &[], false)),
        vec![Resolution::Unresolved(CS_MISSING)]
    );
}

#[test]
fn csharp_using_directives_depend_only_on_named_types() {
    let index = cs_index();
    assert_eq!(
        index.using_targets(&cs_using("App.Models.User", Some("U"), "", false, false)),
        vec![Resolution::Internal("Models/User.cs".to_string())]
    );
    assert!(index.using_targets(&cs_using("App.Models", None, "", false, false)).is_empty());
    assert!(index.using_targets(&cs_using("App.Models.User", None, "", false, false)).is_empty());
    assert_eq!(
        index.using_targets(&cs_using("App.Models.User", None, "", true, false)),
        vec![Resolution::Internal("Models/User.cs".to_string())]
    );
    assert_eq!(index.using_targets(&cs_using("System", None, "", false, false)), vec![Resolution::External]);
    assert_eq!(
        index.using_targets(&cs_using("App.Nothing", None, "", false, false)),
        vec![Resolution::Unresolved(CS_MISSING)]
    );
}

#[test]
fn rust_module_declarations_find_their_files() {
    let mut sources = FileSet::new();
    sources.insert("src/net.rs");
    sources.insert("src/io/mod.rs");
    sources.insert("src/both.rs");
    sources.insert("src/both/mod.rs");
    sources.insert("src/other/place.rs");
    let none: Option<Result<String, &'static str>> = None;
    assert_eq!(module_file(&none, "src", "src", "net", &sources), Ok("src/net.rs".to_string()));
    assert_eq!(module_file(&none, "src", "src", "io", &sources), Ok("src/io/mod.rs".to_string()));
    assert_eq!(
        module_file(&none, "src", "src", "both", &sources),
        Err("Rust module has both name.rs and name/mod.rs candidates.")
    );
    assert_eq!(
        module_file(&none, "src", "src", "gone", &sources),
        Err("Rust module file was not found among scanned sources.")
    );
    let moved = Some(Ok("other/place.rs".to_string()));
    assert_eq!(module_file(&moved, "src", "src/x", "y", &sources), Ok("src/other/place.rs".to_string()));
    let escaping = Some(Ok("../../x.rs".to_string()));
    assert_eq!(
        module_file(&escaping, "src", "src", "y", &sources),
        Err("Rust module path is outside the selected project or is not a literal.")
    );
    let refused: Option<Result<String, &'static str>> = Some(Err("reason"));
    assert_eq!(module_file(&refused, "src", "src", "y", &sources), Err("reason"));
    assert_eq!(inline_directory(&none, "src", "src/a", "b"), Some("src/a/b".to_string()));
    assert_eq!(inline_directory(&moved, "src", "src/a", "b"), Some("src/other/place.rs".to_string()));
    assert_eq!(inline_directory(&refused, "src", "src/a", "b"), None);
    assert_eq!(children_directory("src/io/mod.rs"), "src/io");
    assert_eq!(children_directory("mod.rs"), "");
    assert_eq!(children_directory("src/net.rs"), "src/net");
}

use repotower::languages::c_family::{entry_profile, profile_of, CompileEntry};

fn args(v: &[&str]) -> Option<Vec<String>> {
    Some(v.iter().map(|s| s.to_string()).collect())
}

#[test]
fn compile_commands_give_search_directories() {
    let p = profile_of("/repo", "src", &args(&["c++", "-I", "../include space", "-iquote", "../quotes", "-c", "q.cpp"]));
    assert_eq!(p.user, vec![Some("include space".to_string())]);
    assert_eq!(p.quote, vec![Some("quotes".to_string())]);
    assert!(p.system.is_empty());
    assert!(!p.unsupported);
    let msvc = profile_of("/repo", "", &args(&["cl", "/Iinclude space", "/c", "src/msvc.cpp"]));
    assert_eq!(msvc.user, vec![Some("include space".to_string())]);
    let outside = profile_of("/repo", "", &args(&["cc", "-I../outside", "-Ilocal"]));
    assert_eq!(outside.user, vec![None, Some("local".to_string())]);
    let both = profile_of("/repo", "", &args(&["cc", "-Ia", "-isystem", "a", "-Ib"]));
    assert_eq!(both.user, vec![Some("b".to_string())]);
    assert_eq!(both.system, vec![Some("a".to_string())]);
    assert!(profile_of("/repo", "", &args(&["cc", "@flags.rsp"])).unsupported);
    assert!(profile_of("/repo", "", &args(&["cc", "-I$ROOT/x"])).unsupported);
    assert!(profile_of("/repo", "", &args(&["cc", "-I"])).unsupported);
    assert!(profile_of("/repo", "", &None).unsupported);
}

#[test]
fn compilation_database_entries_name_scanned_sources() {
    let mut known = FileSet::new();
    known.insert("src/quoted.cpp");
    known.insert("notes.txt");
    let entry = |directory: Option<&str>, file: Option<&str>, command: Option<&str>| CompileEntry {
        directory: directory.map(|s| s.to_string()),
        file: file.map(|s| s.to_string()),
        arguments: None,
        command: command.map(|s| s.to_string()),
    };
    let (file, profile) = entry_profile(
        "/repo",
        &known,
        &entry(Some("src"), Some("quoted.cpp"), Some("c++ -I '../include space' -iquote ../quotes -c quoted.cpp")),
    )
    .unwrap();
    assert_eq!(file, "src/quoted.cpp");
    assert_eq!(profile.user, vec![Some("include space".to_string())]);
    let (_, fake) = entry_profile(
        "/repo",
        &known,
        &entry(Some("."), Some("src/quoted.cpp"), Some("echo fake && cc -I\"include space\"")),
    )
    .unwrap();
    assert!(fake.unsupported);
    assert!(entry_profile("/repo", &known, &entry(None, Some("src/quoted.cpp"), None)).unwrap().1.unsupported);
    assert!(entry_profile("/repo", &known, &entry(Some("/elsewhere"), Some("a.c"), None)).is_none());
    assert!(entry_profile("/repo", &known, &entry(Some("."), Some("notes.txt"), None)).is_none());
    assert!(entry_profile("/repo", &known, &entry(Some("."), None, None)).is_none());
    let listed = CompileEntry {
        directory: Some("/repo".to_string()),
        file: Some("/repo/src/quoted.cpp".to_string()),
        arguments: Some(Some(vec!["cc".to_string(), "-isystem/repo/sys".to_string()])),
        command: Some("ignored $X".to_string()),
    };
    let (_, sys) = entry_profile("/repo", &known, &listed).unwrap();
    assert_eq!(sys.system, vec![Some("sys".to_string())]);
    assert!(!sys.unsupported);
}

use repotower::languages::rust::{resolve_use, RustLibrary, RustModule, UsePath};

fn rust_module(root: &str, path: &[&str], files: &[&str], symbols: &[&str]) -> RustModule {
    let mut set = FileSet::new();
    for s in symbols {
        set.insert(s);
    }
    RustModule {
        root: root.to_string(),
        path: path.iter().map(|s| s.to_string()).collect(),
        files: files.iter().map(|s| s.to_string()).collect(),
        symbols: set,
    }
}

fn use_at(file: &str, scope: &[&str], path: &[&str]) -> UsePath {
    UsePath {
        file: file.to_string(),
        manifest: String::new(),
        root: "src/lib.rs".to_string(),
        scope: scope.iter().map(|s| s.to_string()).collect(),
        path: path.iter().map(|s| s.to_string()).collect(),
    }
}

#[test]
fn rust_use_paths_follow_the_declared_module_tree() {
    let modules = vec![
        rust_module("src/lib.rs", &[], &["src/lib.rs"], &["helper", "net"]),
        rust_module("src/lib.rs", &["net"], &["src/net.rs"], &[]),
        rust_module("src/lib.rs", &["net", "tcp"], &["src/net/tcp.rs"], &[]),
        rust_module("src/lib.rs", &["dup"], &["a.rs", "b.rs"], &[]),
        rust_module("other/src/lib.rs", &[], &["other/src/lib.rs"], &[]),
        rust_module("other/src/lib.rs", &["util"], &["other/src/util.rs"], &[]),
    ];
    let libraries = vec![RustLibrary {
        name: "other".to_string(),
        root: "other/src/lib.rs".to_string(),
        manifest: "other".to_string(),
    }];
    let tcp = Resolution::Internal("src/net/tcp.rs".to_string());
    let r = |scope: &[&str], path: &[&str]| resolve_use(&modules, &libraries, &use_at("src/net.rs", scope, path));
    assert_eq!(r(&["net"], &["crate", "net", "tcp", "Stream"]), tcp);
    assert_eq!(r(&["net"], &["self", "tcp"]), tcp);
    assert_eq!(r(&["net"], &["tcp", "Stream"]), tcp);
    assert_eq!(r(&["net"], &["super", "helper"]), Resolution::Internal("src/lib.rs".to_string()));
    assert_eq!(
        r(&["net"], &["super", "super", "x"]),
        Resolution::Unresolved("Rust super path escapes the crate root.")
    );
    assert_eq!(r(&["net"], &["other", "util", "F"]), Resolution::Internal("other/src/util.rs".to_string()));
    assert_eq!(r(&["net"], &["std", "io"]), Resolution::External);
    assert_eq!(
        r(&["net"], &["crate", "missing"]),
        Resolution::Unresolved("Rust use path was not found in the declared local module tree.")
    );
    assert_eq!(
        r(&[], &["crate", "dup"]),
        Resolution::Unresolved("Rust module path has multiple possible source files.")
    );
    assert_eq!(r(&[], &["*"]), Resolution::Unresolved("Rust use path could not be resolved."));
    assert_eq!(r(&[], &["net", "self"]), Resolution::Internal("src/net.rs".to_string()));
    let twins = vec![
        RustLibrary { name: "twin".to_string(), root: "x/src/lib.rs".to_string(), manifest: "x".to_string() },
        RustLibrary { name: "twin".to_string(), root: "y/src/lib.rs".to_string(), manifest: "y".to_string() },
    ];
    assert_eq!(
        resolve_use(&modules, &twins, &use_at("z.rs", &[], &["twin", "f"])),
        Resolution::Unresolved("Rust crate name matches multiple local libraries.")
    );
}

use repotower::languages::python::{emit, MemberBinding};

#[test]
fn python_member_imports_prefer_submodules_and_respect_exports() {
    let index = python_index(&["pkg/__init__.py", "pkg/sub.py", "pkg/deep/x.py", "ns/a/b.py", "src/ns/a/c.py"]);
    let package = index.absolute("pkg").ok().unwrap();
    let sub = index.member_imports("main.py", "pkg", &package, "sub", None, 10);
    assert_eq!(sub, vec![("pkg.sub".to_string(), Resolution::Internal("pkg/sub.py".to_string()))]);
    let nested = index.member_imports("main.py", "pkg", &package, "deep.x", None, 10);
    assert_eq!(nested, vec![("pkg.deep.x".to_string(), Resolution::Internal("pkg/deep/x.py".to_string()))]);
    assert!(index.member_imports("main.py", "pkg", &package, "*", None, 10).is_empty());
    assert!(index.member_imports("main.py", "pkg", &package, "", None, 10).is_empty());
    let exported = MemberBinding { position: Some(3), dynamic: false };
    assert!(index.member_imports("main.py", "pkg", &package, "sub", Some(exported), 10).is_empty());
    let late = MemberBinding { position: Some(30), dynamic: false };
    assert_eq!(
        index.member_imports("pkg/__init__.py", ".", &package, "sub", Some(late), 10),
        vec![(".sub".to_string(), Resolution::Internal("pkg/sub.py".to_string()))]
    );
    let dynamic = MemberBinding { position: None, dynamic: true };
    assert_eq!(
        index.member_imports("main.py", "pkg", &package, "sub", Some(dynamic), 10),
        vec![(
            "pkg.sub".to_string(),
            Resolution::Unresolved("Python 包导出可能由 __getattr__ 动态生成；未猜测同名子模块。")
        )]
    );
    assert_eq!(
        index.member_imports("main.py", "pkg", &package, "value", None, 10),
        vec![(
            "pkg.value".to_string(),
            Resolution::Unresolved("Python 包成员未在静态导出或已扫描子模块中找到；未猜测文件依赖。")
        )]
    );
    let namespace = index.absolute("ns.a").ok().unwrap();
    assert_eq!(namespace.alternatives, vec!["src/ns/a".to_string()]);
    assert_eq!(
        index.member_imports("main.py", "ns.a", &namespace, "c", None, 0),
        vec![("ns.a.c".to_string(), Resolution::Internal("src/ns/a/c.py".to_string()))]
    );
    assert_eq!(
        index.member_imports("main.py", "ns.a", &namespace, "zzz", None, 0),
        vec![(
            "ns.a.zzz".to_string(),
            Resolution::Unresolved("Python 项目内模块未找到；目标可能不存在、被忽略或使用自定义导入路径。")
        )]
    );
    let edges = emit("pkg/sub.py", "pkg.sub", &index.absolute("pkg.sub").ok().unwrap(), false);
    assert_eq!(edges, vec![("pkg.sub".to_string(), Resolution::Internal("pkg/__init__.py".to_string()))]);
    let explicit = emit("pkg/sub.py", "pkg.sub", &index.absolute("pkg.sub").ok().unwrap(), true);
    assert_eq!(explicit.len(), 2);
}

#[test]
fn go_package_symbols_link_to_their_one_declaring_file() {
    let one = vec!["pkg/a.go".to_string()];
    assert_eq!(
        repotower::languages::go::package_symbol("pkg/b.go", &one),
        Some(Resolution::Internal("pkg/a.go".to_string()))
    );
    assert_eq!(repotower::languages::go::package_symbol("pkg/a.go", &one), None);
    let with_test = vec!["pkg/a.go".to_string(), "pkg/a_test.go".to_string()];
    assert_eq!(
        repotower::languages::go::package_symbol("pkg/b.go", &with_test),
        Some(Resolution::Internal("pkg/a.go".to_string()))
    );
    assert_eq!(
        repotower::languages::go::package_symbol("pkg/b_test.go", &with_test),
        Some(Resolution::Unresolved("Go package symbol has multiple possible declaration files."))
    );
    assert_eq!(repotower::languages::go::package_symbol("pkg/b.go", &vec![]), None);
}
