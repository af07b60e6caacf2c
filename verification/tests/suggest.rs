use dupehound::lang::Lang;
use dupehound::suggest::import_suggestion;

fn suggest(file: &str, name: &str, from: &str) -> Option<String> {
    let lang = Lang::from_path(file).unwrap();
    import_suggestion(lang, file, name, from)
}

#[test]
fn rust_nested_module() {
    assert_eq!(
        suggest("src/report/card.rs", "render", "src/scan.rs").as_deref(),
        Some("use crate::report::card::render;"),
    );
}

#[test]
fn rust_mod_and_lib_roots() {
    assert_eq!(
        suggest("src/lang/mod.rs", "classify", "src/x.rs").as_deref(),
        Some("use crate::lang::classify;"),
    );
    assert_eq!(
        suggest("src/lib.rs", "run", "src/x.rs").as_deref(),
        Some("use crate::run;"),
    );
}

#[test]
fn rust_non_src_crate_layout() {
    assert_eq!(
        suggest("crates/core/src/util/parse.rs", "parse_line", "src/x.rs").as_deref(),
        Some("use crate::util::parse::parse_line;"),
    );
}

#[test]
fn python_package_module() {
    assert_eq!(
        suggest("pkg/util/parse.py", "parse_line", "app/main.py").as_deref(),
        Some("from pkg.util.parse import parse_line"),
    );
}

#[test]
fn python_src_layout_and_init() {
    assert_eq!(
        suggest("src/pkg/util.py", "helper", "app.py").as_deref(),
        Some("from pkg.util import helper"),
    );
    assert_eq!(
        suggest("pkg/sub/__init__.py", "factory", "app.py").as_deref(),
        Some("from pkg.sub import factory"),
    );
}

#[test]
fn python_top_level_module_has_a_dotted_path() {
    assert_eq!(
        suggest("util.py", "helper", "app.py").as_deref(),
        Some("from util import helper"),
    );
}

#[test]
fn python_bare_init_is_ambiguous() {
    // `src/__init__.py` collapses to nothing importable.
    assert_eq!(suggest("src/__init__.py", "x", "app.py"), None);
}

#[test]
fn ts_same_directory() {
    assert_eq!(
        suggest("src/core/parse.ts", "parseLine", "src/core/scan.ts").as_deref(),
        Some("import { parseLine } from './parse';"),
    );
}

#[test]
fn ts_child_directory() {
    assert_eq!(
        suggest("src/core/util/parse.ts", "parseLine", "src/core/scan.ts").as_deref(),
        Some("import { parseLine } from './util/parse';"),
    );
}

#[test]
fn ts_parent_directory() {
    assert_eq!(
        suggest("src/parse.ts", "parseLine", "src/core/util/scan.ts").as_deref(),
        Some("import { parseLine } from '../../parse';"),
    );
}

#[test]
fn tsx_and_js_use_the_same_form() {
    assert_eq!(
        suggest("src/a.tsx", "View", "src/b.tsx").as_deref(),
        Some("import { View } from './a';"),
    );
    assert_eq!(
        suggest("lib/util.js", "helper", "index.js").as_deref(),
        Some("import { helper } from './lib/util';"),
    );
}

#[test]
fn method_and_module_languages_get_no_hint() {
    // Java/C#/Swift/C/C++/Go/Kotlin/PHP/Ruby: not a single-symbol import.
    for f in [
        "src/Main.java",
        "src/Service.cs",
        "Sources/App/View.swift",
        "src/parse.c",
        "src/parse.cpp",
        "pkg/parse.go",
        "src/Parser.kt",
        "src/Parser.php",
        "lib/parser.rb",
    ] {
        assert_eq!(suggest(f, "thing", "src/other.rs"), None, "{f}");
    }
}

#[test]
fn languages_by_extension() {
    assert_eq!(Lang::from_path("a/b.mts"), Some(Lang::Typescript));
    assert_eq!(Lang::from_path("x.tsx"), Some(Lang::Tsx));
    assert_eq!(Lang::from_path("x.cjs"), Some(Lang::Javascript));
    assert_eq!(Lang::from_path("x.pyi"), Some(Lang::Python));
    assert_eq!(Lang::from_path("x.hpp"), Some(Lang::Cpp));
    assert_eq!(Lang::from_path("x.kts"), Some(Lang::Kotlin));
    assert_eq!(Lang::from_path(".ts"), None);
    assert_eq!(Lang::from_path("Makefile"), None);
    assert_eq!(Lang::from_path("dir.rs/readme"), None);
}

#[test]
fn typescript_module_file_without_directory() {
    assert_eq!(
        suggest("parse.mjs", "go", "main.mjs").as_deref(),
        Some("import { go } from './parse';"),
    );
}

#[test]
fn ts_directory_starting_with_dots_still_gets_a_relative_prefix() {
    assert_eq!(
        import_suggestion(Lang::Typescript, "..b/c.ts", "parseLine", "a.ts"),
        Some("import { parseLine } from './..b/c';".to_string())
    );
}
