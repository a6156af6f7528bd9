use snippy::format::{
    format_content, format_xml_content, get_file_type, get_filename_comment,
    get_line_numbered_content,
};
use snippy::paths::{is_path_skipped, normalize_path};

#[test]
fn normalize_path_forms() {
    assert_eq!(normalize_path("."), "**/*");
    assert_eq!(normalize_path("./src/main.rs"), "src/main.rs");
    assert_eq!(normalize_path("src\\utils.rs"), "src/utils.rs");
    assert_eq!(normalize_path("/abs/x.rs"), "/abs/x.rs");
    assert_eq!(normalize_path(""), "");
    assert_eq!(normalize_path("./."), "");
    assert_eq!(normalize_path("././a.rs"), "a.rs");
    assert_eq!(normalize_path(".//a/./b"), "a/./b");
    assert_eq!(normalize_path(".\\a.rs"), "a.rs");
}

#[test]
fn normalize_path_is_stable() {
    for p in [".", "./.", "././a.rs", ".//x", "a\\b", "./", "x/./y", "**/*"] {
        let once = normalize_path(p);
        assert!(!once.starts_with("./"));
        assert_eq!(normalize_path(&once), once);
    }
}

#[test]
fn skipped_directories() {
    let skip = ["target", "node_modules", ".git"];
    assert!(is_path_skipped("project/target/debug/a.rs", &skip));
    assert!(is_path_skipped("./node_modules/x.js", &skip));
    assert!(is_path_skipped(".git", &skip));
    assert!(!is_path_skipped("src/targets/a.rs", &skip));
    assert!(!is_path_skipped("src/main.rs", &skip));
    assert!(!is_path_skipped("", &skip));
}

#[test]
fn file_types() {
    assert_eq!(get_file_type("rs").unwrap(), "rust");
    assert_eq!(get_file_type("kts").unwrap(), "kotlin");
    assert_eq!(get_file_type("yml").unwrap(), "yaml");
    assert_eq!(get_file_type("rst").unwrap(), "reStructuredText");
    assert_eq!(get_file_type("dockerfile").unwrap(), "dockerfile");
    assert_eq!(get_file_type("zzz").unwrap(), "unknown");
    assert_eq!(get_file_type("").unwrap(), "unknown");
}

#[test]
fn filename_comments() {
    assert_eq!(get_filename_comment("rs", "a.rs"), "// filename: a.rs\n");
    assert_eq!(get_filename_comment("py", "a.py"), "# filename: a.py\n");
    assert_eq!(get_filename_comment("xml", "a.xml"), "<!-- filename: a.xml -->\n");
    assert_eq!(get_filename_comment("css", "a.css"), "/* filename: a.css */\n");
    assert_eq!(get_filename_comment("txt", "a.txt"), "// filename: a.txt\n");
}

#[test]
fn line_numbering() {
    assert_eq!(get_line_numbered_content("a\nb", None, "|"), "a\nb\n");
    assert_eq!(get_line_numbered_content("a\nb\n", Some(3), "|"), "001|a\n002|b\n");
    let many = (0..12).map(|i| format!("l{}\n", i)).collect::<String>();
    let out = get_line_numbered_content(&many, Some(1), " ");
    assert!(out.starts_with("1 l0\n"));
    assert!(out.ends_with("12 l11\n"));
    assert_eq!(get_line_numbered_content("", Some(2), "|"), "");
}

#[test]
fn markdown_heading_format() {
    let out = format_content("fn a() {}\n", "./src/a.rs", false, None, "|", "MarkdownHeading".to_string(), false)
        .unwrap();
    assert_eq!(out, "### `src/a.rs`\n```rs\nfn a() {}\n```\n");
}

#[test]
fn markdown_first_line_format() {
    let out = format_content("x = 1", "a.py", false, Some(2), ": ", "MarkdownFirstCodeLine".to_string(), false)
        .unwrap();
    assert_eq!(out, "```py\n# filename: a.py\n01: x = 1\n```\n");
}

#[test]
fn plain_formats() {
    let none = format_content("x", "a.c", true, None, "|", "None".to_string(), false).unwrap();
    assert_eq!(none, "x\n");
    let other = format_content("x", "a.c", false, None, "|", "Other".to_string(), false).unwrap();
    assert_eq!(other, "```c\nx\n```\n");
}

#[test]
fn xml_format() {
    let out = format_xml_content("a\nb", "./s/m.rs", Some(2)).unwrap();
    assert_eq!(
        out,
        "<file path=\"s/m.rs\" type=\"rust\">\n<line number=\"01\">a</line>\n<line number=\"02\">b</line>\n</file>\n"
    );
    let plain = format_content("a", "x.toml", false, None, "|", "None".to_string(), true).unwrap();
    assert_eq!(plain, "<file path=\"x.toml\" type=\"toml\">\na\n</file>\n");
}
