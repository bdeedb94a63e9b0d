use tesshir::{check_program, parse_program, DiagnosticSeverity};

fn messages(src: &str) -> Vec<String> {
    let program = parse_program(src).expect("program parses");
    let report = check_program(&program);
    assert_eq!(report.is_ok(), report.diagnostics.is_empty());
    report
        .diagnostics
        .into_iter()
        .map(|d| {
            assert_eq!(d.severity, DiagnosticSeverity::Error);
            d.message
        })
        .collect()
}

/// The message for `where lhs == rhs`, which prints both values.
fn const_eq_message(lhs: &str, rhs: &str) -> Vec<String> {
    messages(&format!("fn f() -> i32 where {lhs} == {rhs} {{ 0 }}\n"))
}

#[test]
fn empty_program_has_no_diagnostics() {
    assert!(messages("").is_empty());
}

#[test]
fn documented_const_examples() {
    assert!(messages("const GOOD: u8 = 255;").is_empty());
    assert!(messages("const BAD: u8 = 256;").iter().any(|m| m.contains("does not fit in u8")));
    assert!(!messages("const BAD: u32 = 1 / 0;").is_empty());
    assert!(!messages("const A: u32 = B + 1;\nconst B: u32 = A + 1;").is_empty());
}

#[test]
fn const_arithmetic_is_exact() {
    assert_eq!(const_eq_message("7 + 5", "13"), vec!["const equality predicate failed: `12` != `13`"]);
    assert_eq!(const_eq_message("7 - 10", "0"), vec!["const equality predicate failed: `-3` != `0`"]);
    assert_eq!(const_eq_message("6 * 7", "0"), vec!["const equality predicate failed: `42` != `0`"]);
    assert_eq!(const_eq_message("-7 / 2", "0"), vec!["const equality predicate failed: `-3` != `0`"]);
    assert_eq!(const_eq_message("-7 % 2", "0"), vec!["const equality predicate failed: `-1` != `0`"]);
    assert_eq!(const_eq_message("1 << 40", "0"), vec!["const equality predicate failed: `1099511627776` != `0`"]);
    assert_eq!(const_eq_message("-9 >> 1", "0"), vec!["const equality predicate failed: `-5` != `0`"]);
    assert_eq!(const_eq_message("12 & 10", "0"), vec!["const equality predicate failed: `8` != `0`"]);
    assert_eq!(const_eq_message("12 | 3", "0"), vec!["const equality predicate failed: `15` != `0`"]);
    assert_eq!(const_eq_message("12 ^ 10", "0"), vec!["const equality predicate failed: `6` != `0`"]);
    assert_eq!(
        const_eq_message("4294967296 * 4294967296", "1"),
        vec!["const equality predicate failed: `18446744073709551616` != `1`"]
    );
    assert!(const_eq_message("2 * 3", "6").is_empty());
}

#[test]
fn const_items_evaluate_through_names_and_casts() {
    assert!(messages("const A: u32 = 4 * 1024;\nconst B: u32 = A + 1;\nfn f() -> i32 where B == 4097 { 0 }").is_empty());
    assert!(messages("const A: i64 = 255 as u8;").is_empty());
    assert!(!messages("const A: i64 = 256 as u8;").is_empty());
}

#[test]
fn integer_literals_take_the_expected_type() {
    assert!(messages("fn f() -> u8 { 255 }").is_empty());
    assert_eq!(messages("fn f() -> u8 { 256 }"), vec!["integer literal does not fit in u8"]);
    assert_eq!(messages("fn f() -> bool { 3000000000 }"), vec![
        "integer literal does not fit in i32",
        "function `f` returns `i32`, expected `bool`",
    ]);
}

#[test]
fn reports_unknown_variables_and_mismatched_branches() {
    assert_eq!(messages("fn f() -> i32 { y }"), vec!["unknown variable `y`"]);
    assert_eq!(
        messages("fn f(c: bool) -> i32 { if c { 1 } else { true } }"),
        vec!["if branches must have the same type"]
    );
    assert_eq!(messages("fn f() -> i32 { if 1 { 1 } else { 2 } }"), vec!["if condition must be bool"]);
    assert_eq!(messages("fn f() -> bool { !1 }"), vec!["unary `!` expects bool operand"]);
    assert_eq!(
        messages("fn f(a: i32, b: bool) -> i32 { a + b }"),
        vec!["binary arithmetic expects matching integer operands"]
    );
}

#[test]
fn reports_call_arity_and_argument_types() {
    assert_eq!(
        messages("fn g(x: i32) -> i32 { x }\nfn f() -> i32 { g(1, 2) }"),
        vec!["function `g` expects 1 arguments"]
    );
    assert_eq!(
        messages("fn g(x: bool) -> i32 { 0 }\nfn f() -> i32 { g(1) }"),
        vec!["argument has type `i32`, expected `bool`"]
    );
}

#[test]
fn struct_literals_check_their_fields() {
    let src = "struct P { x: i32, y: i32 }\nfn f() -> P { P { x: 1, z: 2 } }";
    assert_eq!(messages(src), vec!["unknown field `z`", "missing field `y` for struct `P`"]);
    assert!(messages("struct P { x: i32 }\nfn f(p: P) -> i32 { p.x }").is_empty());
    assert_eq!(
        messages("struct P { x: i32 }\nfn f(p: P) -> i32 { p.q }"),
        vec!["type `P` has no field `q`"]
    );
}

#[test]
fn let_bindings_are_visible_to_later_statements() {
    assert!(messages("fn f() -> i32 { let a: i32 = 1; let b = a; b }").is_empty());
    assert_eq!(
        messages("fn f() -> i32 { let a: bool = 1; 0 }"),
        vec!["let initializer has type `i32`, expected `bool`"]
    );
}

#[test]
fn match_reports_the_first_missing_variant() {
    let src = "enum E { A, B, C }\nfn f(e: E) -> i32 { match e { E::B => 1 } }";
    assert_eq!(messages(src), vec!["match is not exhaustive: missing `A`"]);
    let src = "enum E { A, B }\nfn f(e: E) -> i32 { match e { E::B => 1, _ => 2 } }";
    assert!(messages(src).is_empty());
}

#[test]
fn return_and_todo_diverge() {
    assert!(messages("fn f() -> i32 { return 1; }").is_empty());
    assert!(messages("fn f() -> i32 { todo }").is_empty());
    assert_eq!(
        messages("fn f() -> i32 { return true; }"),
        vec!["return has type `bool`, expected `i32`"]
    );
}

#[test]
fn methods_resolve_through_impls() {
    let src = "struct C {}\nimpl C {\n    fn get(self: &Self) -> i32 { 1 }\n}\nfn f(c: &C) -> i32 { c.get() }";
    assert!(messages(src).is_empty(), "{:?}", messages(src));
    let src = "struct C {}\nimpl C {\n    fn get(self: &Self) -> i32 { 1 }\n}\nfn f(c: C) -> i32 { c.get() }";
    assert_eq!(messages(src), vec!["method receiver has type `C`, expected `&C`"]);
    let src = "struct C {}\nfn f(c: C) -> i32 { c.get() }";
    assert_eq!(messages(src), vec!["no method `get` found for `C`"]);
}

#[test]
fn qualified_call_and_struct_forms_resolve_without_an_enum() {
    // Qualified item names arise from package loading; the checker reads
    // `m::g(..)` and `m::P { .. }` as such names when no enum `m` exists.
    let sources = vec![
        tesshir::SourceSpec::file(
            "m.tess".into(),
            vec!["m".to_string()],
            Ok("struct P { x: i32 }\nfn g() -> i32 { 1 }\n".into()),
        ),
        tesshir::SourceSpec::file(
            "main.tess".into(),
            vec![],
            Ok("use m;\nfn f() -> i32 { m::g() }\nfn h() -> m::P { m::P { x: 1 } }\n".into()),
        ),
    ];
    let package = tesshir::load_package_sources("pkg", &sources).expect("loads");
    let report = check_program(&package.program);
    assert!(report.is_ok(), "{:?}", report.diagnostics);
}

#[test]
fn items_are_checked_in_name_order() {
    let src = "struct B { x: MissingB }\nstruct A { y: MissingA }\n";
    assert_eq!(messages(src), vec!["unknown type `MissingA`", "unknown type `MissingB`"]);
}

#[test]
fn parse_errors_are_errors() {
    let err = parse_program("struct {").expect_err("bad struct");
    assert!(!err.diagnostics.is_empty());
    assert!(err.diagnostics.iter().all(|d| d.severity == DiagnosticSeverity::Error));
}

#[test]
fn duplicate_declarations_are_reported_once_each() {
    let src = "const A: u8 = 1;\nconst A: u8 = 2;\nstruct T {}\nenum T { X }\nfn f() -> i32 { 0 }\nfn f() -> i32 { 1 }\ninterface I {}\ninterface I {}\n";
    let m = messages(src);
    assert_eq!(&m[..4], &[
        "duplicate const `A`".to_string(),
        "duplicate type `T`".to_string(),
        "duplicate function `f`".to_string(),
        "duplicate interface `I`".to_string(),
    ]);
}

#[test]
fn duplicate_fields_and_generic_parameters_are_reported() {
    assert_eq!(messages("struct P { x: i32, y: i32, x: bool }"), vec!["duplicate field `x`"]);
    let m = messages("struct Q<T, T> { v: i32 }");
    assert_eq!(m, vec!["duplicate generic parameter `T`"]);
}

#[test]
fn variant_patterns_bind_payload_types() {
    let src = "enum Message {\n    Move { x: i32, y: i32 },\n    Quit,\n}\nfn f(m: Message) -> i32 {\n    match m {\n        Message::Move { x: a, y: b } => a + b,\n        Message::Quit => 0,\n    }\n}\n";
    assert!(messages(src).is_empty(), "{:?}", messages(src));
}

#[test]
fn struct_patterns_bind_fields() {
    let src = "struct P { x: i32, y: i32 }\nfn f(p: P) -> i32 {\n    match p {\n        P { x: a, y: b } => a + b,\n    }\n}\n";
    assert!(messages(src).is_empty(), "{:?}", messages(src));
    let src = "struct P { x: i32 }\nfn f(p: P) -> i32 {\n    match p {\n        P { z: a } => a,\n    }\n}\n";
    assert!(messages(src).iter().any(|m| m == "unknown field `z`"), "{:?}", messages(src));
}

#[test]
fn superinterface_methods_are_available_through_bounds() {
    let src = "interface Reader {\n    fn read(self: &mut Self) -> i32;\n}\ninterface Seekable: Reader {\n    fn seek(self: &mut Self, offset: i64) -> i64;\n}\nfn g<T: Seekable>(r: &mut T) -> i32 {\n    r.read()\n}\n";
    assert!(messages(src).is_empty(), "{:?}", messages(src));
}

#[test]
fn generic_type_arguments_nest_and_take_constants() {
    let src = "enum Option<T> {\n    None,\n    Some(T),\n}\nstruct Wrap<T> { v: T }\nfn f(x: Option<Wrap<i32>>) -> i32 { 0 }\n";
    assert!(messages(src).is_empty(), "{:?}", messages(src));
    let src = "const SIZE: usize = 16;\nstruct Buf<const N: usize> { data: [u8; N] }\nfn f(b: Buf<SIZE>) -> i32 { 0 }\n";
    assert!(messages(src).is_empty(), "{:?}", messages(src));
}

#[test]
fn const_cycles_are_reported() {
    let m = messages("const A: u32 = B + 1;\nconst B: u32 = A + 1;\n");
    assert!(m.iter().any(|x| x == "const cycle involving `A`"), "{m:?}");
    let m = messages("const C: u8 = C;\n");
    assert_eq!(m, vec!["const cycle involving `C`"]);
}

fn parse_messages(src: &str) -> Vec<String> {
    let err = parse_program(src).expect_err("parse fails");
    err.diagnostics.into_iter().map(|d| d.message).collect()
}

#[test]
fn declaration_errors_lead_the_report() {
    let src = "fn g() -> i32 { y }\nstruct T {}\nstruct T {}\n";
    assert_eq!(messages(src), vec!["duplicate type `T`", "unknown variable `y`"]);
}

#[test]
fn parser_names_what_it_expected() {
    assert_eq!(parse_messages("fn f(x: 5) -> i32 { 0 }")[0], "expected type");
    assert_eq!(parse_messages("fn f() -> i32 { match 1 { + => 0 } }")[0], "expected pattern");
    assert_eq!(parse_messages("fn f() -> i32 { ; }")[0], "expected expression");
    assert_eq!(parse_messages("5")[0], "expected top-level item");
}

#[test]
fn literal_patterns_check_the_scrutinee_type() {
    assert_eq!(
        messages("fn f(x: i32) -> i32 { match x { () => 0, _ => 1 } }"),
        vec!["unit pattern applied to non-unit value"]
    );
    assert_eq!(
        messages("fn f(x: i32) -> i32 { match x { true => 0, _ => 1 } }"),
        vec!["bool pattern applied to non-bool value"]
    );
    assert_eq!(
        messages("fn f(x: bool) -> i32 { match x { 3 => 0, _ => 1 } }"),
        vec!["integer pattern applied to non-integer value"]
    );
    assert!(messages("fn f(x: i32) -> i32 { match x { 3 => 0, y => y } }").is_empty());
}

#[test]
fn enum_patterns_must_match_the_scrutinee_enum() {
    let src = "enum E { A }\nenum F { B }\nfn f(e: E) -> i32 { match e { F::B => 0, _ => 1 } }";
    assert_eq!(messages(src), vec!["enum variant pattern applied to non-matching enum type"]);
    let src = "struct P { x: i32 }\nstruct Q { x: i32 }\nfn f(p: P) -> i32 { match p { Q { x: a } => 0 } }";
    assert_eq!(messages(src), vec!["struct pattern applied to non-matching struct type"]);
}

#[test]
fn constructors_name_known_enums_and_variants() {
    assert_eq!(messages("fn f() -> i32 { let e = Nope::A; 0 }"), vec!["unknown enum `Nope`"]);
    assert_eq!(
        messages("enum E { A }\nfn f() -> E { E::B }"),
        vec!["unknown variant `B` for enum `E`"]
    );
    assert!(messages("enum E { A, B }\nfn f() -> E { E::B }").is_empty());
    assert_eq!(messages("fn f() -> i32 { let p = Missing { x: 1 }; 0 }"), vec!["unknown struct `Missing`"]);
}

#[test]
fn array_lengths_must_be_nonnegative() {
    assert_eq!(messages("fn f(a: [u8; 0 - 1]) -> i32 { 0 }"), vec!["array length must be nonnegative"]);
    assert!(messages("fn f(a: [u8; 4]) -> i32 { 0 }").is_empty());
}

#[test]
fn block_bindings_stay_in_their_block() {
    assert_eq!(
        messages("fn f() -> i32 { let a = { let b: i32 = 1; b }; b }"),
        vec!["unknown variable `b`"]
    );
}

#[test]
fn self_is_replaced_by_the_impl_type() {
    let src = "struct C {}\nimpl C {\n    fn make(self: &Self) -> Self { 1 }\n}\n";
    assert_eq!(messages(src), vec!["method `make` returns `i32`, expected `C`"]);
    let src = "struct W<T> { v: T }\nstruct C {}\nimpl C {\n    fn wrap(self: &Self) -> W<Self> { 1 }\n}\n";
    assert_eq!(messages(src), vec![
        "`Self` is not valid in this type position",
        "method `wrap` returns `i32`, expected `W<C>`",
    ]);
    let src = "struct C {}\nimpl C {\n    fn get(self: &Self) -> &Self { 1 }\n}\n";
    assert_eq!(messages(src), vec!["method `get` returns `i32`, expected `&C`"]);
}

#[test]
fn variant_payloads_take_the_scrutinee_type_arguments() {
    let src = "enum Opt<T> {\n    None,\n    Some(T),\n}\nfn f(x: Opt<bool>) -> i32 {\n    match x {\n        Opt::Some(n) => n,\n        Opt::None => true,\n    }\n}\n";
    assert_eq!(messages(src), vec!["function `f` returns `bool`, expected `i32`"]);
    let src = "enum Opt<T> {\n    None,\n    Some(T),\n}\nfn f(x: Opt<[u8; 4]>) -> i32 {\n    match x {\n        Opt::Some(n) => n,\n        Opt::None => todo,\n    }\n}\n";
    assert_eq!(messages(src), vec!["function `f` returns `[u8; 4]`, expected `i32`"]);
}

#[test]
fn constructor_and_pattern_forms_are_checked() {
    assert_eq!(
        messages("enum E { A(i32) }\nfn f() -> E { E::A }"),
        vec!["variant `A` payload form does not match constructor"]
    );
    assert_eq!(
        messages("struct S {}\nfn f(s: S) -> i32 { match s { S::A => 0 } }"),
        vec!["unknown enum `S`"]
    );
    assert_eq!(
        messages("enum E { A }\nfn f(e: E) -> i32 { match e { E::B => 0, _ => 1 } }"),
        vec!["unknown variant `B`"]
    );
}

#[test]
fn syntax_errors_lie_within_the_source() {
    for src in ["fn f(x: 5) -> i32 { 0 }", "fn broken(", "struct S { x: Vec<i32 }", "fn f() -> i32 { $ }", "enum E { A(", "fn f() -> [u8; 4"] {
        let err = parse_program(src).expect_err("parse fails");
        assert!(!err.diagnostics.is_empty());
        for d in &err.diagnostics {
            assert!(d.span.start <= d.span.end && d.span.end <= src.len(), "{src:?}: {:?}", d.span);
            assert!(!d.message.is_empty());
        }
    }
}

#[test]
fn overflowing_constants_are_reported_with_their_values() {
    assert_eq!(messages("const BAD: u8 = 256;"), vec!["const `BAD` value `256` does not fit in u8"]);
    assert_eq!(messages("const N: i8 = -129;"), vec!["const `N` value `-129` does not fit in i8"]);
    assert_eq!(
        messages("const A: u16 = 70000;\nconst B: u32 = 4294967296;"),
        vec!["const `A` value `70000` does not fit in u16", "const `B` value `4294967296` does not fit in u32"]
    );
    // The later declaration of a name is the one evaluated.
    assert_eq!(messages("const A: u8 = 300;\nconst A: u8 = 1;"), vec!["duplicate const `A`"]);
}

#[test]
fn interface_parameters_are_rejected_at_their_types() {
    let src = "interface Reader {\n    fn read(self: &Self) -> i32;\n}\nfn bad(x: Reader, y: i32) -> i32 { y }\n";
    let program = parse_program(src).expect("program parses");
    let report = check_program(&program);
    let start = src.find("Reader, y").unwrap();
    assert_eq!(report.diagnostics.len(), 1);
    assert_eq!(
        report.diagnostics[0].message,
        "interface `Reader` is not a value type; use a generic bound instead"
    );
    assert_eq!((report.diagnostics[0].span.start, report.diagnostics[0].span.end), (start, start + "Reader".len()));
    // A type parameter of the same name shadows the interface.
    assert!(messages("interface Reader {\n    fn read(self: &Self) -> i32;\n}\nfn fine<Reader>(x: Reader) -> i32 { 0 }\n").is_empty());
}

#[test]
fn missing_interface_methods_are_reported_at_the_impl() {
    let src = "interface Reader {\n    fn read(self: &Self) -> i32;\n    fn size(self: &Self) -> i32;\n}\nstruct File {}\nimpl Reader for File {\n    fn size(self: &Self) -> i32 { 0 }\n}\n";
    let program = parse_program(src).expect("program parses");
    let report = check_program(&program);
    let start = src.find("impl Reader").unwrap();
    let missing: Vec<_> = report
        .diagnostics
        .iter()
        .filter(|d| d.message == "impl for `Reader` is missing method `read`")
        .collect();
    assert_eq!(missing.len(), 1);
    assert_eq!(missing[0].span.start, start);
    assert!(!report.diagnostics.iter().any(|d| d.message.contains("missing method `size`")));
}

#[test]
fn impls_of_one_interface_for_one_primitive_conflict() {
    let msgs = messages(
        "interface Tag {\n    const ID: u8;\n}\nimpl Tag for bool {\n    const ID: u8 = 1;\n}\nimpl Tag for bool {\n    const ID: u8 = 2;\n}\n",
    );
    assert!(msgs.iter().any(|m| m == "conflicting impl of `Tag` for `bool`"), "{msgs:?}");
}

#[test]
fn inheritance_cycles_name_each_interface_on_them() {
    let msgs = messages("interface A: B {}\ninterface B: A {}\n");
    assert!(msgs.iter().any(|m| m == "interface inheritance cycle involving `A`"), "{msgs:?}");
    assert!(msgs.iter().any(|m| m == "interface inheritance cycle involving `B`"), "{msgs:?}");
}

#[test]
fn nested_variant_patterns_do_not_cover_the_outer_match() {
    let m = messages(
        "enum Option<T> { None, Some(T), }\n\
         fn f(x: Option<Option<i32>>) -> i32 { match x { Option::Some(Option::None) => 0, } }\n",
    );
    assert!(m.iter().any(|s| s == "match is not exhaustive: missing `None`"), "{m:?}");
    let covered = messages(
        "enum Option<T> { None, Some(T), }\n\
         fn f(x: Option<Option<i32>>) -> i32 { match x { Option::Some(Option::None) => 0, Option::Some(_) => 1, Option::None => 2, } }\n",
    );
    assert!(covered.is_empty(), "{covered:?}");
}

#[test]
fn a_failed_constant_is_no_cycle_for_its_users() {
    let m = messages("const A: u8 = 1 / 0;\nconst B: u8 = A + 1;\nconst C: u8 = A + 2;\n");
    assert!(m.iter().any(|s| s == "division by zero in const expression"), "{m:?}");
    assert!(!m.iter().any(|s| s.contains("const cycle")), "{m:?}");
}

#[test]
fn enum_parameters_are_inferred_from_constructor_arguments() {
    let ok = messages("enum Option<T> { None, Some(T), }\nfn f() -> Option<i32> { Option::Some(123) }\n");
    assert!(ok.is_empty(), "{ok:?}");
    let wrapped = messages(
        "enum Wrap<U> { W(U), }\nfn g<T>(x: T) -> Wrap<T> { Wrap::W(x) }\n",
    );
    assert!(wrapped.is_empty(), "{wrapped:?}");
    let mismatch = messages("enum Option<T> { None, Some(T), }\nfn f() -> Option<bool> { Option::Some(true) }\nfn g() -> Option<bool> { Option::Some(7) }\n");
    assert_eq!(mismatch.len(), 1, "{mismatch:?}");
}

#[test]
fn named_constants_fold_through_predicates() {
    assert!(messages("const PAGE_SIZE: usize = 4 * 1024;\nfn f() -> i32 where PAGE_SIZE + 1 == 4097 { 0 }\n").is_empty());
    let m = messages("const PAGE_SIZE: usize = 4 * 1024;\nfn f() -> i32 where PAGE_SIZE + 1 == 4096 { 0 }\n");
    assert_eq!(m, vec!["const equality predicate failed: `4097` != `4096`".to_string()]);
}

#[test]
fn unknown_types_and_wrong_argument_counts_are_reported() {
    assert_eq!(messages("fn f(x: Foo) -> i32 { 0 }\n"), vec!["unknown type `Foo`".to_string()]);
    let m = messages("struct P<T> { x: T }\nfn f(x: P) -> i32 { 0 }\n");
    assert!(m.iter().any(|s| s == "type `P` expects 1 generic arguments, got 0"), "{m:?}");
    let p = messages("fn f<T>(x: T<i32>) -> i32 { 0 }\n");
    assert!(p.iter().any(|s| s == "type parameter cannot take generic arguments"), "{p:?}");
}

#[test]
fn discriminants_that_do_not_fit_the_repr_are_reported_with_their_values() {
    let m = messages("const BIG: u16 = 300;\nenum E: u8 { A = 1, B = BIG, C = 255 + 1 }\n");
    assert!(m.iter().any(|s| s == "discriminant `300` does not fit in u8"), "{m:?}");
    assert!(m.iter().any(|s| s == "discriminant `256` does not fit in u8"), "{m:?}");
    assert!(messages("enum F: u8 { A = 1, B = 255 }\n").is_empty());
}

#[test]
fn interface_defaults_that_do_not_fit_are_reported_with_their_values() {
    let m = messages("const K: u16 = 200;\ninterface I { const N: u8 = K + 100; const M: u8 = 7; }\n");
    assert!(m.iter().any(|s| s == "associated const default `300` does not fit in u8"), "{m:?}");
    assert!(messages("interface J { const N: u8 = 255; }\n").is_empty());
}

#[test]
fn failed_constant_operations_report_one_exact_error_each() {
    let m = messages(
        "const A: u8 = 1 / 0;\nconst B: u8 = 1 % 0;\nconst C: u8 = 1 >> (0 - 1);\nconst D: u64 = 1 << 70;\nconst E: u8 = 300 as u8;\n",
    );
    for expected in [
        "division by zero in const expression",
        "remainder by zero in const expression",
        "shift amount does not fit usize",
        "const `D` value `1180591620717411303424` does not fit in u64",
        "value `300` does not fit in u8",
    ] {
        assert_eq!(m.iter().filter(|s| *s == expected).count(), 1, "{expected}: {m:?}");
    }
    assert_eq!(m.len(), 5, "{m:?}");
}

#[test]
fn large_left_shifts_are_computed_exactly() {
    assert!(messages("const D: u8 = (1 << 2000000) >> 1999999;\nfn f() -> i32 where D == 2 { 0 }\n").is_empty());
    let m = messages("const D: u8 = (3 << 3000000) >> 2999999;\n");
    assert!(m.is_empty(), "{m:?}");
    let n = messages("fn f() -> i32 where (1 << 2000000) >> 2000000 == 2 { 0 }\n");
    assert_eq!(n, vec!["const equality predicate failed: `1` != `2`".to_string()]);
}

#[test]
fn const_arguments_that_do_not_fit_their_parameter_are_reported() {
    let m = messages("struct Buf<const N: u8> { x: i32 }\nfn f(b: Buf<300>) -> i32 { 0 }\n");
    assert!(m.iter().any(|s| s == "const argument for `N` has value `300` which does not fit in u8"), "{m:?}");
    assert!(messages("struct Buf<const N: u8> { x: i32 }\nfn f(b: Buf<255>) -> i32 { 0 }\n").is_empty());
}

#[test]
fn an_if_whose_then_branch_returns_takes_the_else_type() {
    assert!(messages("fn f(c: bool) -> i32 { if c { return 1; } else { 2 } }\n").is_empty());
    let m = messages("fn f(c: bool) -> i32 { if c { return 1; } else { true } }\n");
    assert_eq!(m.len(), 1, "{m:?}");
}

#[test]
fn binary_operands_are_reported_once_by_kind() {
    assert_eq!(
        messages("fn f(x: i32, y: i64) -> i32 { x + y }\n"),
        vec!["binary arithmetic expects matching integer operands".to_string()]
    );
    assert!(messages("fn f(x: i32, y: i32) -> i32 { x * y }\n").is_empty());
    assert_eq!(
        messages("fn f(x: bool, y: i32) -> bool { x == y }\n"),
        vec!["comparison expects matching operand types".to_string()]
    );
    assert_eq!(
        messages("fn f(x: bool, y: i32) -> bool { x && y }\n"),
        vec!["logical operator expects bool operands".to_string()]
    );
    assert!(messages("fn f(x: bool, y: bool) -> bool { x || y }\n").is_empty());
}

#[test]
fn if_with_matching_literal_branches_reports_nothing() {
    assert!(messages("fn f(c: bool) -> i32 { if c { 1 } else { 2 } }\n").is_empty());
    assert!(messages("fn f() -> bool { if true { false } else { true } }\n").is_empty());
    assert_eq!(
        messages("fn f(c: bool) -> i32 { if c { 1 } else { () } }\n"),
        vec!["if branches must have the same type".to_string()]
    );
}

#[test]
fn constants_named_by_constants_fold_and_report_their_fit() {
    assert_eq!(
        messages("const A: u8 = 200;\nconst B: u8 = A + 100;\n"),
        vec!["const `B` value `300` does not fit in u8".to_string()]
    );
    assert!(messages("const PAGE: usize = 4096;\nconst NEXT: usize = PAGE + 1;\nfn f() -> i32 where NEXT == 4097 { 0 }\n").is_empty());
    assert!(messages("struct Buf<const N: usize> { x: i32 }\nfn f<const N: usize>(b: Buf<N>) -> i32 where N + 1 == N + 1 { 0 }\n").is_empty());
}

#[test]
fn constructor_with_fitting_literal_arguments_reports_nothing() {
    assert!(messages("enum Option<T> { None, Some(T), }\nfn f() -> Option<i32> { Option::Some(123) }\n").is_empty());
    assert!(messages("enum Pair<A, B> { Both(A, B), }\nfn f() -> Pair<i32, bool> { Pair::Both(1, true) }\n").is_empty());
}

#[test]
fn fitting_constants_report_only_their_redeclarations() {
    assert!(messages("const A: u8 = 255;\nconst B: u16 = 300;\nconst C: i8 = 0 - 128;\n").is_empty());
    assert_eq!(
        messages("const A: u8 = 1;\nconst A: u8 = 2;\nconst B: u8 = 3;\n"),
        vec!["duplicate const `A`".to_string()]
    );
}

#[test]
fn constant_declarations_parse() {
    let p = parse_program("const A: u8 = 1;\nconst B: i32 = 70000;\n").expect("parses");
    assert_eq!(p.kind.items.len(), 2);
    assert!(parse_program("fn broken(").is_err());
}

#[test]
fn if_with_an_early_literal_return_reports_nothing() {
    assert!(messages("fn f(c: bool) -> i32 { if c { return 1; } else { 2 } }\n").is_empty());
    assert!(messages("fn f(c: bool) -> bool { if c { return true; } else { false } }\n").is_empty());
}

#[test]
fn repeated_enum_variants_are_reported() {
    let m = messages("enum E { A, B, A, }\n");
    assert!(m.iter().any(|s| s == "duplicate enum variant `A`"), "{m:?}");
}

#[test]
fn repeated_enum_discriminants_are_reported_with_their_value() {
    let m = messages("enum E: u8 { A = 1, B = 2, C = 0 + 1, }\n");
    assert!(m.iter().any(|s| s == "duplicate enum discriminant `1`"), "{m:?}");
    assert!(messages("enum F: u8 { A = 1, B = 2, }\n").is_empty());
}

#[test]
fn non_exhaustive_match_on_a_parameter_is_reported() {
    let m = messages("enum Option<T> { None, Some(T), }\nfn f(x: Option<i32>) -> i32 { match x { Option::None => 0, } }\n");
    assert_eq!(m, vec!["match is not exhaustive: missing `Some`".to_string()]);
}
