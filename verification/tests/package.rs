use tesshir::ast::ItemKind;
use tesshir::{
    check_program, load_package_sources, module_path_for_components, Diagnostic, PackageOptions,
    SourceSpec, Span,
};

fn strings(parts: &[&str]) -> Vec<String> {
    parts.iter().map(|s| s.to_string()).collect()
}

fn item_names(items: &[tesshir::ast::Item]) -> Vec<String> {
    items
        .iter()
        .filter_map(|item| match &item.kind {
            ItemKind::Const(c) => Some(c.kind.name.clone()),
            ItemKind::Struct(s) => Some(s.kind.name.clone()),
            ItemKind::Enum(e) => Some(e.kind.name.clone()),
            ItemKind::Interface(i) => Some(i.kind.name.clone()),
            ItemKind::Fn(f) => Some(f.kind.name.clone()),
            _ => None,
        })
        .collect()
}

#[test]
fn module_paths_follow_the_documented_layout() {
    assert_eq!(module_path_for_components(&strings(&["main.tess"])), Vec::<String>::new());
    assert_eq!(module_path_for_components(&strings(&["lib.tess"])), Vec::<String>::new());
    assert_eq!(module_path_for_components(&strings(&["math.tess"])), strings(&["math"]));
    assert_eq!(
        module_path_for_components(&strings(&["tensor", "layout.tess"])),
        strings(&["tensor", "layout"])
    );
    assert_eq!(module_path_for_components(&strings(&["tensor", "mod.tess"])), strings(&["tensor"]));
    assert_eq!(module_path_for_components(&strings(&["notes.txt"])), strings(&["notes.txt"]));
    assert_eq!(module_path_for_components(&Vec::new()), Vec::<String>::new());
}

#[test]
fn default_options_include_the_stdlib() {
    assert!(PackageOptions::default().include_stdlib);
}

#[test]
fn qualifies_names_of_non_root_modules() {
    let sources = vec![
        SourceSpec::file(
            "src/math.tess".into(),
            strings(&["math"]),
            Ok("struct Point { x: i32 }\nfn origin() -> Point { Point { x: 0 } }\n".into()),
        ),
        SourceSpec::file(
            "src/main.tess".into(),
            vec![],
            Ok("use math::Point;\nuse math::origin;\nfn main() -> Point { origin() }\n".into()),
        ),
    ];
    let package = load_package_sources("pkg", &sources).expect("package loads");
    assert_eq!(item_names(&package.program.kind.items), strings(&["math::Point", "math::origin", "main"]));
    assert_eq!(package.modules.len(), 2);
    assert_eq!(package.modules[0].name, strings(&["math"]));
    assert_eq!(package.modules[0].source_name, "src/math.tess");
    assert!(package.modules[1].name.is_empty());
    let report = check_program(&package.program);
    assert!(report.is_ok(), "{:?}", report.diagnostics);
}

#[test]
fn stdlib_option_is_reachable_through_use() {
    let sources = vec![
        SourceSpec::stdlib(
            "std/option.tess",
            strings(&["std", "option"]),
            "enum Option<T> {\n    None,\n    Some(T),\n}\n".into(),
        ),
        SourceSpec::file(
            "src/main.tess".into(),
            vec![],
            Ok("use std::option::Option;\nfn f(x: Option<i32>) -> i32 {\n    match x {\n        Option::None => 0,\n        Option::Some(n) => n,\n    }\n}\n".into()),
        ),
    ];
    let package = load_package_sources("pkg", &sources).expect("package loads");
    assert_eq!(item_names(&package.program.kind.items), strings(&["std::option::Option", "f"]));
    let report = check_program(&package.program);
    assert!(report.is_ok(), "{:?}", report.diagnostics);
}

#[test]
fn qualified_path_without_use_is_reported() {
    let sources = vec![
        SourceSpec::file("src/a.tess".into(), strings(&["a"]), Ok("struct S {}\n".into())),
        SourceSpec::file("src/main.tess".into(), vec![], Ok("fn f(x: a::S) -> i32 { 0 }\n".into())),
    ];
    let err = load_package_sources("pkg", &sources).expect_err("missing use");
    let messages: Vec<&str> = err.diagnostics.iter().map(|d| d.message.as_str()).collect();
    assert_eq!(messages, vec!["path `a::S` requires an explicit `use a;` dependency"]);
    let rendered = err.source_map.render_diagnostic(&err.diagnostics[0]);
    assert_eq!(rendered, "Error: src/main.tess:1:9: path `a::S` requires an explicit `use a;` dependency");
}

#[test]
fn namespace_use_allows_qualified_paths() {
    let sources = vec![
        SourceSpec::file("src/a.tess".into(), strings(&["a"]), Ok("struct S {}\n".into())),
        SourceSpec::file("src/main.tess".into(), vec![], Ok("use a;\nfn f(x: a::S) -> i32 { 0 }\n".into())),
    ];
    let package = load_package_sources("pkg", &sources).expect("package loads");
    let report = check_program(&package.program);
    assert!(report.is_ok(), "{:?}", report.diagnostics);
}

#[test]
fn unknown_constructor_root_is_reported() {
    let sources = vec![SourceSpec::file(
        "src/main.tess".into(),
        vec![],
        Ok("fn f() -> i32 { Missing::Thing }\n".into()),
    )];
    let err = load_package_sources("pkg", &sources).expect_err("missing use");
    assert_eq!(err.diagnostics.len(), 1);
    assert_eq!(
        err.diagnostics[0].message,
        "path `Missing::...` requires an explicit `use Missing;` dependency"
    );
}

#[test]
fn only_stdlib_sources_is_an_error() {
    let sources = vec![SourceSpec::stdlib("std/option.tess", strings(&["std", "option"]), "".into())];
    let err = load_package_sources("some/dir", &sources).expect_err("no sources");
    assert_eq!(err.diagnostics.len(), 1);
    assert_eq!(err.diagnostics[0].message, "no `.tess` source files found under `some/dir`");
    assert_eq!(err.diagnostics[0].span, Span::default());
    assert_eq!(err.source_map.render_diagnostic(&err.diagnostics[0]), "Error: no `.tess` source files found under `some/dir`");
    let none: Vec<SourceSpec> = vec![];
    assert!(load_package_sources("x", &none).is_err());
}

#[test]
fn unreadable_source_is_reported_where_it_would_start() {
    let sources = vec![
        SourceSpec::file("a.tess".into(), vec![], Ok("fn a() -> i32 { 0 }".into())),
        SourceSpec::file("b.tess".into(), vec![], Err("permission denied".into())),
    ];
    let err = load_package_sources("pkg", &sources).expect_err("read failure");
    assert_eq!(err.diagnostics.len(), 1);
    assert_eq!(err.diagnostics[0].message, "failed to read `b.tess`: permission denied");
    assert_eq!(err.diagnostics[0].span, Span::new(20, 20));
}

#[test]
fn diagnostics_render_at_their_local_position() {
    let sources = vec![
        SourceSpec::file("one.tess".into(), strings(&["one"]), Ok("struct A {}\n".into())),
        SourceSpec::file(
            "two.tess".into(),
            strings(&["two"]),
            Ok("const X: u8 = 1;\nconst Y: u8 = 300;\n".into()),
        ),
    ];
    let package = load_package_sources("pkg", &sources).expect("package loads");
    let report = check_program(&package.program);
    assert_eq!(report.diagnostics.len(), 1);
    let d = &report.diagnostics[0];
    // The second source starts after the first one's 12 bytes and one gap.
    assert_eq!(d.span.start, 13 + 31);
    let rendered = package.source_map.render_diagnostic(d);
    assert!(rendered.starts_with("Error: two.tess:2:15: "), "{rendered}");
    assert!(rendered.contains("does not fit in u8"), "{rendered}");
}

#[test]
fn render_without_a_source_has_no_position() {
    let sources = vec![SourceSpec::file("one.tess".into(), vec![], Ok("fn f() -> i32 { 0 }".into()))];
    let package = load_package_sources("pkg", &sources).expect("package loads");
    let far = Diagnostic::error(Span::new(1000, 1001), "somewhere else".into());
    assert_eq!(package.source_map.render_diagnostic(&far), "Error: somewhere else");
}

#[test]
fn parse_errors_are_moved_into_the_merged_span_space() {
    let sources = vec![
        SourceSpec::file("ok.tess".into(), vec![], Ok("fn f() -> i32 { 0 }".into())),
        SourceSpec::file("bad.tess".into(), strings(&["bad"]), Ok("fn (".into())),
    ];
    let err = load_package_sources("pkg", &sources).expect_err("parse error");
    assert!(!err.diagnostics.is_empty());
    for d in &err.diagnostics {
        assert!(d.span.start >= 20, "{d:?}");
        let rendered = err.source_map.render_diagnostic(d);
        assert!(rendered.starts_with("Error: bad.tess:1:"), "{rendered}");
    }
}

#[test]
fn package_and_file_renderings_agree() {
    let text = "struct A {}\nconst C: u8 = 999;\n";
    let sources = vec![
        SourceSpec::file("first.tess".into(), strings(&["first"]), Ok("fn f() -> i32 { 0 }\n".into())),
        SourceSpec::file("second.tess".into(), strings(&["second"]), Ok(text.into())),
    ];
    let package = load_package_sources("pkg", &sources).expect("package loads");
    let report = check_program(&package.program);
    assert_eq!(report.diagnostics.len(), 1);
    let merged = &report.diagnostics[0];
    let base = "fn f() -> i32 { 0 }\n".len() + 1;
    let local = Diagnostic::error(
        Span::new(merged.span.start - base, merged.span.end - base),
        merged.message.clone(),
    );
    let file = tesshir::SourceFile::new("second.tess", text);
    assert_eq!(package.source_map.render_diagnostic(merged), local.render(&file));
    assert!(local.render(&file).starts_with("Error: second.tess:2:15: "));
}

#[test]
fn stdlib_is_loaded_only_when_asked_for() {
    let none = tesshir::stdlib_sources(&PackageOptions { include_stdlib: false });
    assert!(none.is_empty());
    let std = tesshir::stdlib_sources(&PackageOptions::default());
    assert_eq!(std.len(), 1);
    assert!(std[0].is_stdlib);
    assert_eq!(std[0].name, "std/option.tess");
    assert_eq!(std[0].module, strings(&["std", "option"]));
    let mut sources = std;
    sources.push(SourceSpec::file(
        "main.tess".into(),
        vec![],
        Ok("use std::option::Option;\nfn f(x: Option<i32>) -> i32 { match x { Option::Some(n) => n, Option::None => 0 } }\n".into()),
    ));
    let package = load_package_sources("pkg", &sources).expect("package loads");
    let report = check_program(&package.program);
    assert!(report.is_ok(), "{:?}", report.diagnostics);
}

#[test]
fn discovery_skips_hidden_and_target_directories() {
    assert!(tesshir::skips_directory(".git"));
    assert!(tesshir::skips_directory(".hidden"));
    assert!(tesshir::skips_directory("target"));
    assert!(!tesshir::skips_directory("tensor"));
    assert!(!tesshir::skips_directory("targets"));
    assert!(!tesshir::skips_directory(""));
}

#[test]
fn merged_items_render_in_their_own_files() {
    let sources = vec![
        SourceSpec::file("a.tess".into(), strings(&["a"]), Ok("\nstruct P {}\n".into())),
        SourceSpec::file("main.tess".into(), vec![], Ok("fn f() -> i32 { 0 }\n".into())),
    ];
    let package = load_package_sources("pkg", &sources).expect("package loads");
    let rendered: Vec<String> = package
        .program
        .kind
        .items
        .iter()
        .map(|item| package.source_map.render_diagnostic(&Diagnostic::error(item.span, "here".into())))
        .collect();
    assert_eq!(rendered, vec!["Error: a.tess:2:1: here", "Error: main.tess:1:1: here"]);
}

#[test]
fn every_inner_span_moves_with_its_source() {
    let first = "const A: u8 = 1;\n";
    let second = "fn f() -> i32 { 40 + 2 }\n";
    let sources = vec![
        SourceSpec::file("src/a.tess".into(), vec![], Ok(first.into())),
        SourceSpec::file("src/b.tess".into(), vec![], Ok(second.into())),
    ];
    let package = load_package_sources("pkg", &sources).expect("package loads");
    let base = first.len() + 1;
    let f = match &package.program.kind.items[1].kind {
        ItemKind::Fn(f) => f,
        other => panic!("expected a function, got {other:?}"),
    };
    let local_start = second.find("40").unwrap();
    assert_eq!(f.kind.body.span.start, base + second.find('{').unwrap());
    match &f.kind.body.kind {
        tesshir::ast::ExprKind::Block(block) => {
            let tail = block.kind.tail.as_ref().expect("a tail expression");
            assert_eq!(tail.span.start, base + local_start);
            assert_eq!(tail.span.end, base + local_start + "40 + 2".len());
        },
        other => panic!("expected a block, got {other:?}"),
    }
    assert_eq!(f.kind.ret.span.start, base + second.find("i32").unwrap());
}

#[test]
fn sources_without_tokens_load_as_an_empty_program() {
    let sources = vec![
        SourceSpec::file("src/main.tess".into(), vec![], Ok("".into())),
        SourceSpec::file("src/notes.tess".into(), strings(&["notes"]), Ok("// nothing here yet\n  \n".into())),
    ];
    let package = load_package_sources("pkg", &sources).expect("package loads");
    assert!(package.program.kind.items.is_empty());
    assert_eq!(package.modules.len(), 2);
}

#[test]
fn constant_only_sources_load() {
    let sources = vec![
        SourceSpec::file("main.tess".into(), vec![], Ok("const A: u8 = 1;\n".into())),
        SourceSpec::file("net/mod.tess".into(), strings(&["net"]), Ok("const PORT: u16 = 80;\nconst B: i64 = 5;\n".into())),
    ];
    let package = load_package_sources("pkg", &sources).expect("loads");
    assert_eq!(item_names(&package.program.kind.items), strings(&["A", "net::PORT", "net::B"]));
    assert!(check_program(&package.program).diagnostics.is_empty());
}
