use repotower::languages::c_family::{compilation_profiles, Profile};
use repotower::languages::c_include::{include_step, is_cpp_file, path_suffixes, IncludeStep};
use repotower::model::FileSet;
use repotower::resolver::Resolution;

const MISSING: &str = "在已扫描的 C/C++ 文件中未找到包含目标。";
const SEARCH_PATH: &str = "包含目标需要明确且一致的编译器搜索路径；未按同名文件猜测连线。";

fn files(ids: &[&str]) -> FileSet {
    FileSet::from_ids(&ids.iter().map(|s| s.to_string()).collect())
}

fn profile(user: Vec<Option<&str>>) -> Profile {
    Profile {
        quote: vec![],
        user: user.into_iter().map(|d| d.map(str::to_string)).collect(),
        system: vec![],
        unsupported: false,
    }
}

#[test]
fn quoted_includes_look_beside_the_file_then_ask_the_disk() {
    let known = files(&["src/a.h", "src/main.c"]);
    let suffixes = files(&["src/a.h", "a.h", "src/main.c", "main.c"]);
    let none: Vec<Profile> = vec![];
    assert_eq!(
        include_step("src/main.c", "a.h", true, &none, &known, &suffixes, &vec![]),
        IncludeStep::Done(Resolution::Internal("src/a.h".to_string()))
    );
    assert_eq!(
        include_step("src/main.c", "b.h", true, &none, &known, &suffixes, &vec![]),
        IncludeStep::Probe("src/b.h".to_string())
    );
    let absent = vec![("src/b.h".to_string(), false)];
    assert_eq!(
        include_step("src/main.c", "b.h", true, &none, &known, &suffixes, &absent),
        IncludeStep::Done(Resolution::Unresolved(MISSING))
    );
    let present = vec![("src/b.h".to_string(), true)];
    assert_eq!(
        include_step("src/main.c", "b.h", true, &none, &known, &suffixes, &present),
        IncludeStep::Done(Resolution::Unresolved(MISSING))
    );
    assert_eq!(
        include_step("src/main.c", "stdio.h", false, &none, &known, &suffixes, &vec![]),
        IncludeStep::Done(Resolution::External)
    );
    assert_eq!(
        include_step("src/main.c", "a.h", false, &none, &known, &suffixes, &vec![]),
        IncludeStep::Done(Resolution::Unresolved(SEARCH_PATH))
    );
    assert_eq!(
        include_step("src/main.c", "/abs.h", true, &none, &known, &suffixes, &vec![]),
        IncludeStep::Done(Resolution::Unresolved("路径位于所选项目之外。"))
    );
    assert_eq!(
        include_step("src/main.c", "c:x.h", true, &none, &known, &suffixes, &vec![]),
        IncludeStep::Done(Resolution::Unresolved("包含路径使用不支持的格式。"))
    );
}

#[test]
fn profiles_search_in_order_and_must_agree() {
    let known = files(&["include/x.h", "other/x.h", "src/main.c"]);
    let suffixes = files(&["include/x.h", "other/x.h", "x.h", "src/main.c", "main.c"]);
    let one = vec![profile(vec![Some("include")])];
    assert_eq!(
        include_step("src/main.c", "x.h", false, &one, &known, &suffixes, &vec![]),
        IncludeStep::Done(Resolution::Internal("include/x.h".to_string()))
    );
    let two = vec![profile(vec![Some("include")]), profile(vec![Some("other")])];
    assert_eq!(
        include_step("src/main.c", "x.h", false, &two, &known, &suffixes, &vec![]),
        IncludeStep::Done(Resolution::Unresolved(SEARCH_PATH))
    );
    let outside_first = vec![profile(vec![None, Some("include")])];
    assert_eq!(
        include_step("src/main.c", "x.h", false, &outside_first, &known, &suffixes, &vec![]),
        IncludeStep::Done(Resolution::Unresolved(SEARCH_PATH))
    );
    let shadowed = vec![profile(vec![Some("gen"), Some("include")])];
    assert_eq!(
        include_step("src/main.c", "x.h", false, &shadowed, &known, &suffixes, &vec![]),
        IncludeStep::Probe("gen/x.h".to_string())
    );
    let on_disk = vec![("gen/x.h".to_string(), true)];
    assert_eq!(
        include_step("src/main.c", "x.h", false, &shadowed, &known, &suffixes, &on_disk),
        IncludeStep::Done(Resolution::Unresolved(MISSING))
    );
}

#[test]
fn compilation_database_entries_give_profiles() {
    let known = files(&["src/main.c", "src/util.c"]);
    let config = r#"[
        {"directory": "/p", "file": "src/main.c", "arguments": ["cc", "-Iinclude", "-c", "src/main.c"]},
        {"directory": "/p", "file": "src/missing.c", "command": "cc -c src/missing.c"},
        {"directory": "/p", "file": "src/util.c", "arguments": ["cc", 3]}
    ]"#;
    let profiles = compilation_profiles("/p", &known, config);
    assert_eq!(profiles.len(), 2);
    assert_eq!(profiles[0].0, "src/main.c");
    assert!(profiles[0].1.user.contains(&Some("include".to_string())));
    assert_eq!(profiles[1].0, "src/util.c");
    assert!(profiles[1].1.unsupported);
    assert!(compilation_profiles("/p", &known, "{}").is_empty());
    assert!(compilation_profiles("/p", &known, "not json").is_empty());
}

#[test]
fn suffixes_and_cpp_files() {
    assert_eq!(
        path_suffixes("src/a/x.h"),
        vec!["src/a/x.h".to_string(), "a/x.h".to_string(), "x.h".to_string()]
    );
    assert_eq!(path_suffixes("x.h"), vec!["x.h".to_string()]);
    assert!(is_cpp_file("src/A.C"));
    assert!(is_cpp_file("src/a.HPP"));
    assert!(!is_cpp_file("src/a.c"));
    assert!(!is_cpp_file("Makefile"));
}
