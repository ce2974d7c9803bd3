use patchquilt::java::strip::strip_comments_and_literals;

#[test]
fn line_comment_blanked() {
    let out = strip_comments_and_literals("int a; // { not real\nint b;");
    assert!(!out.contains('{'));
    assert!(out.contains("int a;"));
    assert!(out.contains("int b;"));
}

#[test]
fn block_comment_blanked_across_lines() {
    let out = strip_comments_and_literals("/* { \n } */int a;");
    assert!(!out.contains('{'));
    assert!(!out.contains('}'));
    assert!(out.contains("int a;"));
}

#[test]
fn string_literal_blanked() {
    let out = strip_comments_and_literals(r#"String s = "{ not brace }";"#);
    assert!(!out.contains('{'));
    assert!(!out.contains('}'));
}

#[test]
fn escaped_quote_inside_string_handled() {
    let out = strip_comments_and_literals(r#"String s = "a\"{b";"#);
    assert!(!out.contains('{'));
}

#[test]
fn char_literal_blanked() {
    let out = strip_comments_and_literals("char c = '{';");
    assert!(!out.contains('{'));
}

#[test]
fn preserves_length_per_line_for_non_comment_code() {
    let src = "class Foo {\n  int x;\n}";
    let out = strip_comments_and_literals(src);
    assert_eq!(src.lines().count(), out.lines().count());
}

#[test]
fn blanks_exactly_and_keeps_positions() {
    assert_eq!(strip_comments_and_literals("a // b\nc"), "a     \nc");
    assert_eq!(strip_comments_and_literals("x/*1\n2*/y"), "x   \n   y");
    assert_eq!(strip_comments_and_literals("s=\"a\\\"b\";"), "s=      ;");
    assert_eq!(strip_comments_and_literals("t=\"\"\"{\n}\"\"\";"), "t=    \n    ;");
    assert_eq!(strip_comments_and_literals("c='\\'';"), "c=    ;");
}

#[test]
fn unterminated_comment_and_literal_run_to_the_end() {
    assert_eq!(strip_comments_and_literals("a /* {"), "a     ");
    assert_eq!(strip_comments_and_literals("a \"{\n"), "a   \n");
    assert_eq!(strip_comments_and_literals("a '{\n"), "a   \n");
}

#[test]
fn keeps_the_byte_length_and_non_ascii_code() {
    let src = "int é = 1; // ü";
    let out = strip_comments_and_literals(src);
    assert_eq!(out.len(), src.len());
    assert_eq!(out, "int é = 1;      ");
    let quoted = "s = \"ünï\"; c = 'ß';";
    let out = strip_comments_and_literals(quoted);
    assert_eq!(out.len(), quoted.len());
    assert_eq!(out, "s =        ; c =     ;");
}

#[test]
fn line_breaks_inside_literals_stay() {
    assert_eq!(strip_comments_and_literals("'\n'"), " \n ");
    assert_eq!(strip_comments_and_literals("\"a\\\nb\"x"), "   \n  x");
    let src = "char c = '\n';\nString s = \"a\\\nb\";\nint x;";
    let out = strip_comments_and_literals(src);
    assert_eq!(src.lines().count(), out.lines().count());
    assert!(out.ends_with("\nint x;"));
}

fn keeps_bytes_up_to_spaces(src: &str) {
    let out = strip_comments_and_literals(src);
    assert_eq!(out.len(), src.len());
    for (o, s) in out.bytes().zip(src.bytes()) {
        assert!(o == s || o == b' ', "{src:?} -> {out:?}");
        assert_eq!(o == b'\n', s == b'\n', "{src:?} -> {out:?}");
    }
}

#[test]
fn every_byte_is_kept_or_blanked_on_any_text() {
    keeps_bytes_up_to_spaces("x /* é */ y");
    keeps_bytes_up_to_spaces("café = \"naïve\n\"; // ü\n'€'");
    keeps_bytes_up_to_spaces("/* 日本\n語 */ class Ω {}");
    assert_eq!(strip_comments_and_literals("x /* é */ y"), "x          y");
    assert_eq!(strip_comments_and_literals("é // é\n"), "é      \n");
}
