use gremlin::cli::{flags, required};
use gremlin::codegen::lower;
use gremlin::source::parse;

#[test]
fn lowering_counts_steps_and_returns_a_status() {
    let f = parse("fn f(x:u8,y:u8)->u8 { return add(x,y); }").unwrap();
    let text = lower(&f, 10).unwrap();
    let expected_lines: [&str; 39] = [
        "target triple = \"x86_64-unknown-linux-gnu\"",
        "declare void @llvm.trap() cold noreturn nounwind",
        "define internal {i8, i8} @gremlin_impl(i8 %arg0, i8 %arg1) {",
        "entry:",
        "  %s0 = alloca i8",
        "  %s1 = alloca i8",
        "  %s2 = alloca i8",
        "  %steps = alloca i64",
        "  store i64 0, ptr %steps",
        "  store i8 %arg0, ptr %s0",
        "  store i8 %arg1, ptr %s1",
        "  br label %b0",
        "b0:",
        "  %t0 = load i64, ptr %steps",
        "  %t1 = icmp eq i64 %t0, 10",
        "  br i1 %t1, label %timeout, label %next2",
        "next2:",
        "  %t3 = add i64 %t0, 1",
        "  store i64 %t3, ptr %steps",
        "  %t4 = load i8, ptr %s0",
        "  %t5 = load i8, ptr %s1",
        "  %t6 = add i8 %t4, %t5",
        "  store i8 %t6, ptr %s2",
        "  %t7 = load i64, ptr %steps",
        "  %t8 = icmp eq i64 %t7, 10",
        "  br i1 %t8, label %timeout, label %next9",
        "next9:",
        "  %t10 = add i64 %t7, 1",
        "  store i64 %t10, ptr %steps",
        "  %t11 = load i8, ptr %s2",
        "  %t12 = insertvalue {i8, i8} zeroinitializer, i8 %t11, 0",
        "  ret {i8, i8} %t12",
        "division_zero:",
        "  ret {i8, i8} {i8 0, i8 1}",
        "division_overflow:",
        "  ret {i8, i8} {i8 0, i8 2}",
        "timeout:",
        "  ret {i8, i8} {i8 0, i8 3}",
        "}",
    ];
    let expected = expected_lines.join("\n") + "\n";
    assert!(text.starts_with(&expected), "{text}");
    assert!(text.contains("define i8 @gremlin_target(i8 %arg0, i8 %arg1) {\nentry:\n  %r = call {i8, i8} @gremlin_impl(i8 %arg0, i8 %arg1)\n"));
    assert!(text.ends_with("define i8 @gremlin_status(i8 %arg0, i8 %arg1) {\nentry:\n  %r = call {i8, i8} @gremlin_impl(i8 %arg0, i8 %arg1)\n  %status = extractvalue {i8, i8} %r, 1\n  ret i8 %status\n}\n"));
}

#[test]
fn signed_division_guards_zero_and_overflow() {
    let f = parse("fn f(x:i16,y:i16)->i16 { return srem(x,y); }").unwrap();
    let text = lower(&f, 64).unwrap();
    assert!(text.contains("icmp eq i16 %t5, 0\n"));
    assert!(text.contains(", label %division_zero, label %"));
    assert!(text.contains("icmp eq i16 %t4, 32768\n"));
    assert!(text.contains("icmp eq i16 %t5, -1\n"));
    assert!(text.contains(", label %division_overflow, label %"));
    assert!(text.contains(" = srem i16 %t4, %t5\n"));
}

#[test]
fn loops_pass_values_along_edges() {
    let f = parse(
        "fn f(x:u32)->u32 { let mut a:u32=x; while ult(a,10u32) { a=add(a,1u32); } return a; }",
    )
    .unwrap();
    let text = lower(&f, 1000).unwrap();
    assert!(text.contains("edge0:\n"));
    assert!(text.contains("  br label %b1\n") || text.contains("  br label %b2\n"));
    assert!(text.contains(" = icmp ult i32 "));
}

#[test]
fn invalid_functions_are_not_lowered() {
    let f = parse("fn f(x:u8)->u8 { return x; }").unwrap();
    let mut g = f.clone();
    g.entry = 99;
    assert!(lower(&g, 1).is_err());
}

#[test]
fn flags_are_allowed_and_given_once() {
    let args: Vec<String> = ["verify", "--candidate", "a.gremlin", "--timeout-ms", "5"]
        .iter()
        .map(|s| s.to_string())
        .collect();
    let allowed = vec!["--candidate", "--timeout-ms", "--output"];
    let f = flags(&args, &allowed).unwrap();
    assert_eq!(
        f,
        vec![
            ("--candidate".to_string(), "a.gremlin".to_string()),
            ("--timeout-ms".to_string(), "5".to_string())
        ]
    );
    assert_eq!(required(&f, "--timeout-ms").unwrap(), "5");
    assert_eq!(
        required(&f, "--output").unwrap_err(),
        (2, "missing --output".to_string())
    );
    let odd: Vec<String> = vec!["verify".into(), "--candidate".into()];
    assert_eq!(
        flags(&odd, &allowed).unwrap_err(),
        (2, "flags require values".to_string())
    );
    let twice: Vec<String> = ["verify", "--output", "x", "--output", "y"]
        .iter()
        .map(|s| s.to_string())
        .collect();
    assert_eq!(
        flags(&twice, &allowed).unwrap_err(),
        (2, "unknown or duplicate flag".to_string())
    );
    let unknown: Vec<String> = vec!["verify".into(), "--solver".into(), "z3".into()];
    assert_eq!(
        flags(&unknown, &allowed).unwrap_err(),
        (2, "unknown or duplicate flag".to_string())
    );
}
