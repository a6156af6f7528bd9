use snippy::applier::{apply_block, ApplyError};
use snippy::extractor::{extract, extract_counting, BlockType, ParsedBlock};
use snippy::format::format_content;
use snippy::paths::normalize_path;
use snippy::watcher::{BatchReport, PollDecision, WatcherState};
use std::collections::BTreeMap;

fn full(name: &str, body: &str) -> ParsedBlock {
    ParsedBlock {
        filename: name.to_string(),
        content: body.to_string(),
        block_type: BlockType::FullContent,
    }
}

fn diff(name: &str, body: &str) -> ParsedBlock {
    ParsedBlock {
        filename: name.to_string(),
        content: body.to_string(),
        block_type: BlockType::UnifiedDiff,
    }
}

/// Applies the blocks in order to an in-memory tree, as the watch loop does on disk.
fn run(blocks: &[ParsedBlock], files: &mut BTreeMap<String, String>) -> BatchReport {
    let mut report = BatchReport::new();
    for b in blocks {
        let existing = files.get(&b.filename).cloned();
        match apply_block(b, existing.as_deref()) {
            Ok(c) => {
                files.insert(b.filename.clone(), c);
                report.record(b.filename.clone(), None);
            }
            Err(e) => report.record(b.filename.clone(), Some(e)),
        }
    }
    report
}

#[test]
fn heading_annotation_names_the_file() {
    let blocks = extract("### `src/lib.rs`\n```rust\npub fn f() {}\n```\n");
    assert_eq!(blocks.len(), 1);
    assert_eq!(blocks[0].filename, "src/lib.rs");
    assert_eq!(blocks[0].content, "pub fn f() {}\n");
    assert_eq!(blocks[0].block_type, BlockType::FullContent);
}

#[test]
fn first_line_comment_styles_name_the_file() {
    let text = "```python\n# filename: a.py\nx = 1\n```\n\
                ```html\n<!-- filename: b.html -->\n<p/>\n```\n\
                ```css\n/* filename: `./c.css` */\np {}\n```\n\
                ```rust\n// filename: d\\e.rs\nfn e() {}\n```\n";
    let blocks = extract(text);
    let names: Vec<&str> = blocks.iter().map(|b| b.filename.as_str()).collect();
    assert_eq!(names, vec!["a.py", "b.html", "c.css", "d/e.rs"]);
    assert_eq!(blocks[0].content, "x = 1\n");
    assert_eq!(blocks[2].content, "p {}\n");
}

#[test]
fn diff_shaped_block_is_a_unified_diff() {
    let text = "```diff\n// filename: x.rs\n--- x.rs\n+++ x.rs\n@@ -1,1 +1,1 @@\n-a\n+b\n```\n";
    let blocks = extract(text);
    assert_eq!(blocks.len(), 1);
    assert_eq!(blocks[0].block_type, BlockType::UnifiedDiff);
    assert_eq!(blocks[0].content, "--- x.rs\n+++ x.rs\n@@ -1,1 +1,1 @@\n-a\n+b\n");
}

#[test]
fn nameless_block_is_dropped() {
    let text = "```rust\n// filename: a.rs\nfn a() {}\n```\n\
                ```rust\nfn nameless() {}\n```\n\
                ```rust\n// filename: b.rs\nfn b() {}\n```\n";
    let blocks = extract(text);
    assert_eq!(blocks.len(), 2);
    assert_eq!(blocks[0].filename, "a.rs");
    assert_eq!(blocks[1].filename, "b.rs");
    let mut files = BTreeMap::new();
    let report = run(&blocks, &mut files);
    assert_eq!(report.outcomes.len(), 2);
    assert_eq!(report.applied_count(), 2);
    assert_eq!(report.failed_count(), 0);
}

#[test]
fn unclosed_block_at_end_is_dropped() {
    let blocks = extract("```rust\n// filename: a.rs\nfn a() {}\n```\n```rust\n// filename: b.rs\n");
    assert_eq!(blocks.len(), 1);
    assert_eq!(blocks[0].filename, "a.rs");
}

#[test]
fn blocks_come_in_document_order_with_duplicates() {
    let text = (0..50)
        .map(|i| format!("```\n// filename: f{}.txt\nline {}\n```\n", i % 3, i))
        .collect::<String>();
    let blocks = extract(&text);
    assert_eq!(blocks.len(), 50);
    for (i, b) in blocks.iter().enumerate() {
        assert_eq!(b.filename, format!("f{}.txt", i % 3));
        assert_eq!(b.content, format!("line {}\n", i));
    }
}

#[test]
fn empty_input_gives_no_blocks() {
    assert!(extract("").is_empty());
    assert!(extract("just prose\nno fences\n").is_empty());
}

#[test]
fn full_content_round_trip_and_idempotence() {
    let b = full("foo.rs", "fn main(){}");
    let first = apply_block(&b, Some("old text\n")).unwrap();
    assert_eq!(first, "fn main(){}");
    let second = apply_block(&b, Some(&first)).unwrap();
    assert_eq!(second, first);
    assert_eq!(apply_block(&full("e.txt", ""), Some("x\n")).unwrap(), "");
}

#[test]
fn clean_diff_equals_hand_patch() {
    let pre = "a\nb\nc\nd\ne\nf\n";
    let d = diff(
        "f.txt",
        "--- f.txt\n+++ f.txt\n@@ -1,2 +1,3 @@\n a\n+a2\n b\n@@ -5,1 +6,1 @@\n-e\n+E\n",
    );
    assert_eq!(apply_block(&d, Some(pre)).unwrap(), "a\na2\nb\nc\nd\nE\nf\n");
}

#[test]
fn removal_shifts_later_hunks() {
    let pre = "1\n2\n3\n4\n5\n";
    let d = diff("n", "--- n\n+++ n\n@@ -1,2 +1,0 @@\n-1\n-2\n@@ -4,1 +2,1 @@\n-4\n+four\n");
    assert_eq!(apply_block(&d, Some(pre)).unwrap(), "3\nfour\n5\n");
}

#[test]
fn drifted_hunk_is_found_within_window() {
    let pre = "x\nx2\na\nb\n";
    let d = diff("w", "--- w\n+++ w\n@@ -1,1 +1,1 @@\n-a\n+A\n");
    assert_eq!(apply_block(&d, Some(pre)).unwrap(), "x\nx2\nA\nb\n");
}

#[test]
fn hunk_beyond_window_conflicts() {
    let pre = "0\n1\n2\n3\n4\na\n";
    let d = diff("w", "--- w\n+++ w\n@@ -1,1 +1,1 @@\n-a\n+A\n");
    assert_eq!(apply_block(&d, Some(pre)), Err(ApplyError::PatchConflict));
}

#[test]
fn corrupted_target_conflicts_and_other_block_applies() {
    let mut files = BTreeMap::new();
    files.insert("bar.rs".to_string(), "something else\n".to_string());
    let blocks = vec![
        diff("bar.rs", "--- bar.rs\n+++ bar.rs\n@@ -1,1 +1,2 @@\n fn main(){}\n+// added\n"),
        full("other.rs", "fn other() {}\n"),
    ];
    let report = run(&blocks, &mut files);
    assert_eq!(report.outcomes[0].error, Some(ApplyError::PatchConflict));
    assert_eq!(report.outcomes[1].error, None);
    assert_eq!(files["bar.rs"], "something else\n");
    assert_eq!(files["other.rs"], "fn other() {}\n");
    assert_eq!(report.applied_count(), 1);
    assert_eq!(report.failed_count(), 1);
}

#[test]
fn malformed_diffs_fail_to_parse() {
    let pre = "a\n";
    let miscounted = diff("m", "--- m\n+++ m\n@@ -1,2 +1,1 @@\n-a\n+b\n");
    assert_eq!(apply_block(&miscounted, Some(pre)), Err(ApplyError::DiffParseError));
    let no_hunk = diff("m", "--- m\n+++ m\n");
    assert_eq!(apply_block(&no_hunk, Some(pre)), Err(ApplyError::DiffParseError));
    let bad_line = diff("m", "--- m\n+++ m\n@@ -1,1 +1,1 @@\n-a\n*b\n");
    assert_eq!(apply_block(&bad_line, Some(pre)), Err(ApplyError::DiffParseError));
    let descending = diff("m", "--- m\n+++ m\n@@ -3,1 +3,1 @@\n-c\n+C\n@@ -1,1 +1,1 @@\n-a\n+A\n");
    assert_eq!(apply_block(&descending, Some("a\nb\nc\n")), Err(ApplyError::DiffParseError));
}

#[test]
fn missing_file_needs_pure_addition() {
    let edit = diff("new.rs", "--- new.rs\n+++ new.rs\n@@ -1,1 +1,1 @@\n-a\n+b\n");
    assert_eq!(apply_block(&edit, None), Err(ApplyError::FileNotFound));
    let add = diff("new.rs", "--- /dev/null\n+++ new.rs\n@@ -0,0 +1,2 @@\n+x\n+y\n");
    assert_eq!(apply_block(&add, None).unwrap(), "x\ny\n");
}

#[test]
fn counts_default_to_one_and_crlf_lines_match() {
    let d = diff("c", "--- c\r\n+++ c\r\n@@ -2 +2 @@\r\n-b\r\n+B\r\n");
    assert_eq!(apply_block(&d, Some("a\r\nb\r\nc\r\n")).unwrap(), "a\nB\nc\n");
}

#[test]
fn watch_cycle_applies_full_content_and_diff() {
    let mut state = WatcherState::new();
    let paste = "# Relevant Code\n\
                 ```rust\n// filename: foo.rs\nfn main(){}\n```\n\
                 ```diff\n// filename: bar.rs\n--- bar.rs\n+++ bar.rs\n@@ -1,1 +1,2 @@\n fn main(){}\n+// added\n```\n";
    let mut files = BTreeMap::new();
    files.insert("bar.rs".to_string(), "fn main(){}\n".to_string());
    files.insert("third.rs".to_string(), "untouched\n".to_string());
    let blocks = match state.observe(paste, "# Relevant Code") {
        PollDecision::Process(b, skipped) => {
            assert_eq!(skipped, 0);
            b
        }
        _ => panic!("expected the paste to be processed"),
    };
    assert_eq!(blocks.len(), 2);
    let report = run(&blocks, &mut files);
    assert_eq!(report.applied_count(), 2);
    assert_eq!(files["foo.rs"], "fn main(){}\n");
    assert_eq!(files["bar.rs"], "fn main(){}\n// added\n");
    assert_eq!(files["third.rs"], "untouched\n");
    assert_eq!(files.len(), 3);
    assert!(matches!(state.observe(paste, "# Relevant Code"), PollDecision::Unchanged));
}

#[test]
fn changed_text_without_marker_is_ignored() {
    let mut state = WatcherState::new();
    assert!(matches!(state.observe("hello", "# Relevant Code"), PollDecision::NoMarker));
    assert!(matches!(state.observe("hello", "# Relevant Code"), PollDecision::Unchanged));
    assert!(matches!(
        state.observe("# Relevant Code\n", "# Relevant Code"),
        PollDecision::Process(_, _)
    ));
}

#[test]
fn skipped_regions_are_counted() {
    let text = "```rust\n// filename: a.rs\nfn a() {}\n```\n\
                ```rust\nfn nameless() {}\n```\n\
                ```rust\n// filename: b.rs\n";
    let (blocks, skipped) = extract_counting(text);
    assert_eq!(blocks.len(), 1);
    assert_eq!(skipped, 2);
    assert_eq!(extract_counting("no fences\n").1, 0);
}

#[test]
fn formatted_files_extract_back_and_nameless_one_is_dropped() {
    let files = ["././a.rs", "src\\b.py", "./c/d.toml"];
    let mut text = String::new();
    for (i, f) in files.iter().enumerate() {
        let body = format!("line {}\n", i);
        text.push_str(&format_content(&body, f, false, None, "|", "MarkdownHeading".to_string(), false).unwrap());
        if i == 0 {
            let bare = format_content("anonymous\n", "z.rs", false, None, "|", "Other".to_string(), false).unwrap();
            assert_eq!(bare, "```rs\nanonymous\n```\n");
            text.push_str(&bare);
        }
    }
    let (blocks, skipped) = extract_counting(&text);
    assert_eq!(skipped, 1);
    assert_eq!(blocks.len(), files.len());
    for (b, f) in blocks.iter().zip(files.iter()) {
        assert_eq!(b.filename, normalize_path(f));
    }
    assert_eq!(blocks[0].filename, "a.rs");
    assert_eq!(blocks[1].content, "line 1\n");
    let mut tree = BTreeMap::new();
    let report = run(&blocks, &mut tree);
    assert_eq!(report.outcomes.len(), 3);
    assert_eq!(report.applied_count(), 3);
}
