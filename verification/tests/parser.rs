use repotower::model::DependencyKind;
use repotower::parser::{parse_script, decode_string, import_of};

#[test]
fn handles_string_escapes() {
    assert_eq!(
        decode_string(r"'./f\x6fo\u002fbar'"),
        Some("./foo/bar".into())
    );
    assert_eq!(decode_string("'broken"), None);
}

#[test]
fn decodes_simple_and_braced_escapes() {
    assert_eq!(decode_string(r#""a\nb\tc""#), Some("a\nb\tc".into()));
    assert_eq!(decode_string(r"`\u{1F600}`"), Some("\u{1F600}".into()));
    assert_eq!(decode_string(r"'\q'"), Some("q".into()));
    assert_eq!(decode_string("'line\\\ncontinued'"), Some("linecontinued".into()));
    assert_eq!(decode_string("'crlf\\\r\nnext'"), Some("crlfnext".into()));
}

#[test]
fn refuses_octal_bad_hex_and_mismatched_quotes() {
    assert_eq!(decode_string(r"'\1'"), None);
    assert_eq!(decode_string(r"'\xZZ'"), None);
    assert_eq!(decode_string(r"'\u{1234567}'"), None);
    assert_eq!(decode_string(r"'\u{D800}'"), None);
    assert_eq!(decode_string(r#"'mixed""#), None);
    assert_eq!(decode_string("'"), None);
    assert_eq!(decode_string(r"'trailing\'"), None);
    assert_eq!(decode_string(r"'\u{}'"), None);
    assert_eq!(decode_string(r"'\x4'"), None);
}

#[test]
fn imports_keep_literals_and_cut_expressions() {
    let import = import_of("'./a'", true, DependencyKind::Static);
    assert_eq!(import.specifier, "./a");
    assert!(import.literal);
    assert_eq!(import.kind, DependencyKind::Static);
    let dynamic = import_of("`./${name}`", false, DependencyKind::Dynamic);
    assert_eq!(dynamic.specifier, "`./${name}`");
    assert!(!dynamic.literal);
    let long = "x".repeat(200);
    let cut = import_of(&long, false, DependencyKind::Require);
    assert_eq!(cut.specifier.chars().count(), 160);
    let broken = import_of("'\\1'", true, DependencyKind::Static);
    assert!(!broken.literal);
    assert_eq!(broken.specifier, "'\\1'");
}

#[test]
fn all_import_forms_and_comments() {
    let source = r#"
          // import './not-real';
          const comment = "require('./not-real')";
          import type { X } from './types';
          import './side-effect';
          export { Y } from './barrel';
          export * from './all';
          const a = import('./lazy');
          const b = require('./legacy');
          const c = import(`./template`);
          const d = import(`./${name}`);
          const e = require(variable);
          object.require('./not-real');
        "#;
    let parsed = parse_script("ts", source).unwrap();
    assert!(!parsed.has_errors);
    assert_eq!(parsed.imports.len(), 9);
    assert_eq!(parsed.imports.iter().filter(|i| !i.literal).count(), 2);
    assert_eq!(parsed.imports[0].specifier, "./types");
}

#[test]
fn parses_tsx_and_jsx() {
    for extension in ["tsx", "jsx"] {
        let parsed = parse_script(
            extension,
            "import React from 'react'; export const View = () => <div>Hello</div>",
        )
        .unwrap();
        assert!(!parsed.has_errors);
        assert_eq!(parsed.imports.len(), 1);
    }
}

#[test]
fn malformed_file_still_returns_visible_imports() {
    let parsed = parse_script("js", "import './visible'; const = ;").unwrap();
    assert!(parsed.has_errors);
    assert_eq!(parsed.imports[0].specifier, "./visible");
}

#[test]
fn ignores_magic_comments_inside_dynamic_imports() {
    let parsed = parse_script(
        "ts",
        "import(/* webpackChunkName: 'lazy' */ './lazy'); require(/* note */ './legacy');",
    )
    .unwrap();
    assert_eq!(parsed.imports.len(), 2);
    assert_eq!(parsed.imports[0].specifier, "./lazy");
    assert_eq!(parsed.imports[1].specifier, "./legacy");
    assert!(parsed.imports.iter().all(|import| import.literal));
}

#[test]
fn deeply_nested_sources_are_walked_without_deep_recursion() {
    let depth = 10_000;
    let source = format!("import './a';\nconst x = {}{};\nrequire('./b');\n", "[".repeat(depth), "]".repeat(depth));
    let parsed = parse_script("js", &source).unwrap();
    assert_eq!(parsed.imports.len(), 2);
    assert_eq!(parsed.imports[1].specifier, "./b");
}
