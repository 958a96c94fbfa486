use deadcode_core::walk::{is_collected_extension, is_collected_file, skip_directory};
use deadcode_core::{is_test_file, is_test_path, language_for_ext, language_of_path, relative_to, Language, ScanOptions};

#[test]
fn test_paths_are_recognised() {
    for p in [
        "App/Tests/FooTests.swift",
        "app/src/test/java/Foo.kt",
        "app/src/androidTest/Foo.kt",
        "App/UITests/Flow.swift",
        "FooTest.swift",
        "FooTests.kt",
        "FooSpec.kt",
        "Sources/Mocks/Api.swift",
        "Fixtures/data.swift",
    ] {
        assert!(is_test_file(p), "{p}");
    }
    for p in ["App/Sources/Foo.swift", "Context.kt", "contest/Foo.kt"] {
        assert!(!is_test_file(p), "{p}");
    }
    assert!(is_test_path("a/tests/b.swift"));
    assert!(!is_test_path("a/Tests/b.swift"));
    assert!(is_test_file("Latest.swift"));
}

#[test]
fn extensions_name_languages() {
    assert_eq!(language_for_ext("swift"), Some(Language::Swift));
    assert_eq!(language_for_ext("kt"), Some(Language::Kotlin));
    assert_eq!(language_for_ext("kts"), Some(Language::Kotlin));
    assert_eq!(language_for_ext("java"), None);
    assert_eq!(language_for_ext("Swift"), None);
    assert_eq!(language_of_path("a/b/C.swift"), Some(Language::Swift));
    assert_eq!(language_of_path("build.gradle.kts"), Some(Language::Kotlin));
    assert_eq!(language_of_path("Makefile"), None);
    assert_eq!(language_of_path(".swift"), None);
}

#[test]
fn relative_paths() {
    assert_eq!(relative_to("/repo", "/repo/App/A.swift"), "App/A.swift");
    assert_eq!(relative_to("/repo/", "/repo/App/A.swift"), "App/A.swift");
    assert_eq!(relative_to("/other", "/repo/App/A.swift"), "/repo/App/A.swift");
    assert_eq!(relative_to("/repo", "/repository/A.swift"), "/repository/A.swift");
}

#[test]
fn walk_skips_and_collects() {
    let mut opts = ScanOptions::default();
    assert!(skip_directory("node_modules", &opts));
    assert!(skip_directory(".hidden", &opts));
    assert!(skip_directory("DerivedData", &opts));
    assert!(!skip_directory("Sources", &opts));
    assert!(!skip_directory("vendor", &opts));
    opts.extra_skip_dirs = vec!["vendor".to_string()];
    assert!(skip_directory("vendor", &opts));
    assert!(is_collected_extension("swift"));
    assert!(is_collected_extension("kts"));
    assert!(is_collected_extension("storyboard"));
    assert!(is_collected_extension("xcstrings"));
    assert!(!is_collected_extension("txt"));
    assert!(!is_collected_extension(""));
}

#[test]
fn dotfiles_are_not_collected() {
    assert!(!is_collected_file(".secret.json"));
    assert!(!is_collected_file(".build.swift"));
    assert!(is_collected_file("a.json"));
    assert!(is_collected_file("Main.storyboard"));
    assert!(is_collected_file("build.gradle.kts"));
    assert!(!is_collected_file("Makefile"));
    assert!(!is_collected_file("notes.txt"));
}
