use repotower::model::FileSet;
use repotower::resolver::{resolve, Resolution};

#[test]
fn extensions_indexes_and_boundary() {
    let known = FileSet::from_ids(
        &[
            "src/a.ts",
            "src/utils/index.ts",
            "index.ts",
            "src/view.tsx",
            "src/user.model.ts",
            "src/utils.ts",
        ]
        .map(str::to_string)
        .to_vec(),
    );
    for (importer, path, expected) in [
        ("src/main.ts", "./a.js", "src/a.ts"),
        ("src/main.ts", "..", "index.ts"),
        ("src/main.ts", "./view.jsx", "src/view.tsx"),
        ("src/main.ts", "./user.model", "src/user.model.ts"),
        ("src/main.ts", "./utils/", "src/utils/index.ts"),
        ("src/main.ts", "./utils", "src/utils.ts"),
    ] {
        assert!(
            matches!(resolve(importer, path, &known), Resolution::Internal(actual) if actual == expected)
        );
    }
    assert!(matches!(
        resolve("index.ts", "../escape", &known),
        Resolution::Unresolved(_)
    ));
    assert!(matches!(
        resolve("index.ts", "@/alias", &known),
        Resolution::Unresolved(_)
    ));
    assert!(matches!(
        resolve("index.ts", "C:/outside", &known),
        Resolution::Unresolved(_)
    ));
    assert!(matches!(
        resolve("index.ts", "@scope/package", &known),
        Resolution::External
    ));
}

#[test]
fn empty_and_missing_specifiers_are_unresolved() {
    let known = FileSet::from_ids(&vec!["src/a.ts".to_string()]);
    assert!(matches!(resolve("src/main.ts", "", &known), Resolution::Unresolved(_)));
    assert!(matches!(resolve("src/main.ts", "./missing", &known), Resolution::Unresolved(_)));
    assert!(matches!(resolve("src/main.ts", "react", &known), Resolution::External));
}
