use repotower::preferences::Preferences;
use repotower::scanner::{
    scan_admission, scan_limit_warning, too_large_warning, ScanAdmission,
    budget_warning, grown_warning, read_decision, source_text, ReadDecision, Warnings,
};

#[test]
fn reading_skips_grown_files_and_stops_at_the_total_limit() {
    assert_eq!(read_decision(0, 2 * 1024 * 1024), ReadDecision::Keep(2 * 1024 * 1024));
    assert_eq!(read_decision(0, 2 * 1024 * 1024 + 1), ReadDecision::Grown);
    assert_eq!(read_decision(128 * 1024 * 1024 - 10, 11), ReadDecision::Budget);
    assert_eq!(read_decision(128 * 1024 * 1024 - 10, 10), ReadDecision::Keep(128 * 1024 * 1024));
    assert_eq!(grown_warning("a.js"), "文件扫描后变大，已跳过：a.js");
    assert!(budget_warning().starts_with("读取的源码达到 128 MiB"));
}

#[test]
fn non_utf8_sources_are_reported() {
    assert_eq!(source_text("a.js", b"let x;".to_vec()), Ok("let x;".to_string()));
    assert_eq!(
        source_text("b.js", vec![0xff, 0xfe]),
        Err("文件不是 UTF-8，已跳过：b.js".to_string())
    );
}

#[test]
fn pushes_keep_the_first_three_hundred_and_count_the_rest() {
    let mut warnings = Warnings::new();
    for i in 0..301 {
        warnings.push(format!("w{i}"));
    }
    let shown = warnings.finish();
    assert_eq!(shown.len(), 301);
    assert_eq!(shown[0], "w0");
    assert_eq!(shown[299], "w299");
    assert_eq!(shown[300], "另有 1 条同类警告未显示。");
}

#[test]
fn unknown_preferences_fall_back_to_defaults() {
    let prefs = Preferences {
        theme: "neon".to_string(),
        language: "ja".to_string(),
        reduced_motion: true,
    }
    .validated();
    assert_eq!(prefs.theme, "light");
    assert_eq!(prefs.language, "ja");
    assert!(prefs.reduced_motion);
    let defaults = Preferences::new();
    assert_eq!((defaults.theme.as_str(), defaults.language.as_str()), ("light", "en"));
    let other = Preferences { theme: "dark".to_string(), language: "fr".to_string(), reduced_motion: false }.validated();
    assert_eq!((other.theme.as_str(), other.language.as_str()), ("dark", "en"));
}

#[test]
fn scan_admits_at_most_ten_thousand_files_and_the_byte_limits() {
    use_scan_rules();
}

fn use_scan_rules() {
    assert_eq!(scan_admission(0, 0, 2 * 1024 * 1024 + 1), ScanAdmission::TooLarge);
    assert_eq!(scan_admission(9_999, 0, 10), ScanAdmission::Admit(10));
    assert_eq!(scan_admission(10_000, 0, 10), ScanAdmission::Limit);
    assert_eq!(scan_admission(5, 128 * 1024 * 1024 - 5, 6), ScanAdmission::Limit);
    assert_eq!(too_large_warning("big.js"), "文件超过 2 MiB，已跳过：big.js");
    assert!(scan_limit_warning().contains("10,000"));
}
