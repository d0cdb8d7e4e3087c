use sorex::script_source::{
    escape_js_string, strip_esm_exports, strip_typescript_annotations, strip_typescript_declarations,
    strip_typescript_for_ranking,
};

#[test]
fn escape_js_string_escapes_quotes_and_controls() {
    assert_eq!(escape_js_string("hello"), "hello");
    assert_eq!(escape_js_string("a\"b\\c"), "a\\\"b\\\\c");
    assert_eq!(escape_js_string("line\nnext\ttab\rcr"), "line\\nnext\\ttab\\rcr");
    assert_eq!(escape_js_string("\u{1}"), "\\u0001");
    assert_eq!(escape_js_string("\u{1f}\u{7f}\u{9f}"), "\\u001f\\u007f\\u009f");
    // Other characters, non-ASCII ones too, stay as they are
    assert_eq!(escape_js_string("café ✓ \u{a0}"), "café ✓ \u{a0}");
    assert_eq!(escape_js_string(""), "");
}

#[test]
fn declarations_are_replaced_by_a_marker() {
    let code = "interface Foo {\n  a: number;\n}\nconst x = 1;\ntype Bar = { b: string };\nfunction f() {}\n";
    assert_eq!(
        strip_typescript_declarations(code),
        "// TS declaration removed\nconst x = 1;\n// TS declaration removed\nfunction f() {}\n"
    );
    // `typeof` makes a `type` line ordinary code
    assert_eq!(strip_typescript_declarations("type T = typeof x;"), "type T = typeof x;\n");
    // Keywords count only at the start of a line
    assert_eq!(strip_typescript_declarations("  export interface A {}"), "// TS declaration removed\n");
    assert_eq!(strip_typescript_declarations("let interface = 1;"), "let interface = 1;\n");
    // A declaration without braces keeps the next line in the declaration
    assert_eq!(
        strip_typescript_declarations("export type X = string;\nconst y = 2;\nconst z = 3;\n"),
        "// TS declaration removed\nconst z = 3;\n"
    );
    // CRLF line endings become newlines; every kept line ends with one
    assert_eq!(strip_typescript_declarations("a\r\nb"), "a\nb\n");
    assert_eq!(strip_typescript_declarations(""), "");
}

#[test]
fn annotations_are_removed_after_colons() {
    assert_eq!(strip_typescript_annotations("function foo(x: number): string"), "function foo(x)");
    assert_eq!(strip_typescript_annotations("function foo(x: number): string {"), "function foo(x){");
    assert_eq!(strip_typescript_annotations("const o = { a: 1 };"), "const o = { a: 1 };");
    assert_eq!(
        strip_typescript_annotations("let m: Map<string, number> = new Map();"),
        "let m= new Map();"
    );
    assert_eq!(strip_typescript_annotations("f(a: Foo, b: any[])"), "f(a, b)");
    // A colon at the end keeps its blanks
    assert_eq!(strip_typescript_annotations("label:  "), "label:  ");
}

#[test]
fn esm_syntax_is_stripped_for_global_evaluation() {
    let js = "export default function main() {}\nexport const a = 1;\nconsole.log(import.meta.url);\nexport { main, a };\n";
    assert_eq!(
        strip_esm_exports(js),
        "function main() {}\nconst a = 1;\nconsole.log(undefined);\n"
    );
    assert_eq!(strip_esm_exports("export default 42;"), "const __default_export__ = 42;");
    assert_eq!(
        strip_esm_exports("export class A {}\nexport let b;\nexport var c;\nexport function d() {}"),
        "class A {}\nlet b;\nvar c;\nfunction d() {}"
    );
    // Everything from the export section comment on goes
    assert_eq!(strip_esm_exports("code();\n// ES Module exports\nexport { x };"), "code();");
    // A block without its closing `};` cuts the source there
    assert_eq!(strip_esm_exports("code();\nexport { a"), "code();\n");
    // TypeScript is left alone
    assert_eq!(strip_esm_exports("let x: number = 1;"), "let x: number = 1;");
}

#[test]
fn ranking_sources_lose_types_and_module_syntax() {
    let ts = "interface Ctx {\n  x: number;\n}\nexport default function score(ctx: Ctx): number {\n  return 1;\n}\n";
    assert_eq!(
        strip_typescript_for_ranking(ts),
        "// TS declaration removed\nfunction score(ctx){\n  return 1;\n}\n"
    );
}

#[test]
fn no_export_block_survives_stripping() {
    let out = strip_esm_exports("a();\nexport { a };\nb();\nexport { b };\nexport { c");
    assert!(!out.contains("export {"));
    assert_eq!(out, "a();\nb();\n");
}

#[test]
fn escaped_text_has_no_control_characters() {
    let all: String = (0u32..0xa0).filter_map(char::from_u32).collect();
    let out = escape_js_string(&all);
    assert!(!out.chars().any(|c| c.is_control()));
    assert!(out.starts_with("\\u0000\\u0001"));
}
