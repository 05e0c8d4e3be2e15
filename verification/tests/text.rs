use repotower::scanner::{slash_path, to_ascii_lower, Warnings};
use repotower::text::{short, tr, Catalog, Phrase};

fn phrase(language: &str, key: &str, text: &str) -> Phrase {
    Phrase {
        language: language.to_string(),
        key: key.to_string(),
        text: text.to_string(),
    }
}

#[test]
fn short_keeps_short_text_and_marks_cuts() {
    assert_eq!(short("abc", 3), "abc");
    assert_eq!(short("abcd", 3), "ab…");
    assert_eq!(short("模块依赖", 2), "模…");
    assert_eq!(short("abc", 0), "…");
    assert_eq!(short("", 0), "");
}

#[test]
fn phrases_pick_the_dictionary_by_domain() {
    let catalog = Catalog {
        graph: vec![phrase("en", "title", "Graph"), phrase("zh", "title", "图")],
        work: vec![phrase("en", "open", "Open"), phrase("en", "title", "Workbench")],
    };
    assert_eq!(tr(&catalog, "en", "graph.title"), "Graph");
    assert_eq!(tr(&catalog, "zh", "graph.title"), "图");
    assert_eq!(tr(&catalog, "en", "open"), "Open");
    assert_eq!(tr(&catalog, "en", "work.title"), "Workbench");
    assert_eq!(tr(&catalog, "en", "other.title"), "Workbench");
    assert_eq!(tr(&catalog, "ja", "open"), "");
    assert_eq!(tr(&catalog, "en", "graph.missing"), "");
}

#[test]
fn warnings_keep_three_hundred_and_count_the_rest() {
    let mut warnings = Warnings::new();
    for index in 0..305 {
        warnings.push(format!("w{index}"));
    }
    let shown = warnings.finish();
    assert_eq!(shown.len(), 301);
    assert_eq!(shown[0], "w0");
    assert_eq!(shown[299], "w299");
    assert_eq!(shown[300], "另有 5 条同类警告未显示。");
    let mut few = Warnings::new();
    few.push("only".to_string());
    assert_eq!(few.finish(), vec!["only".to_string()]);
}

#[test]
fn paths_use_slashes_and_extensions_lower_case() {
    assert_eq!(slash_path("src\\a\\b.ts"), "src/a/b.ts");
    assert_eq!(to_ascii_lower("Main.TS"), "main.ts");
    assert_eq!(to_ascii_lower("Ärger.RS"), "Ärger.rs");
}

#[test]
fn runtime_messages_are_translated_by_dictionary_pattern_and_prefix() {
    let d = repotower::text::Diagnostics {
        messages: vec![phrase("en", "路径位于所选项目之外。", "The path is outside the selected project.")],
        prefixes: vec![phrase("en", "缺少文件：", "Missing file: ")],
    };
    let show = |m: &str, l: &str| repotower::text::diagnostic(&d, m, l);
    assert_eq!(show("路径位于所选项目之外。", "en"), "The path is outside the selected project.");
    assert_eq!(show("另有 12 条同类警告未显示。", "en"), "12 additional warnings of this kind were omitted.");
    assert_eq!(show("另有 12 条同类警告未显示。", "ja"), "同種の警告をさらに 12 件省略しました。");
    assert_eq!(show("另有 12 条同类警告未显示。", "zh"), "另有 12 条同类警告未显示。");
    assert_eq!(
        show("src/a.ts 包含解析错误，依赖结果可能不完整。", "en"),
        "src/a.ts contains parse errors; dependency results may be incomplete."
    );
    assert_eq!(
        show("目录项超过 200000，扫描提前结束；当前结果仅代表已扫描部分。", "en"),
        "Directory entries exceeded 200000. The scan stopped early; results cover only the scanned portion."
    );
    assert_eq!(show("Go parser unavailable", "zh"), "Go 解析器不可用。");
    assert_eq!(show("Go parser unavailable", "en"), "Go parser unavailable");
    assert_eq!(
        show("无法解析 src/x.c：路径位于所选项目之外。", "en"),
        "Could not parse src/x.c: The path is outside the selected project."
    );
    assert_eq!(show("无法解析 a：b：c", "zh"), "无法解析 a：b：c");
    assert_eq!(show("缺少文件：a.txt", "en"), "Missing file: a.txt");
    assert_eq!(show("something else", "en"), "something else");
}
