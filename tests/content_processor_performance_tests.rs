use snippy::applier::apply_block;
use snippy::extractor::{extract, BlockType, ParsedBlock};
use std::time::Instant;

#[test]
fn test_large_file_extraction_performance() {
    let count = 10000;
    let content = (0..count)
        .map(|i| {
            format!(
                "```rust\n// filename: test{}.rs\nfn main() {{ println!(\"Hello, {}!\"); }}\n```\n",
                i, i
            )
        })
        .collect::<String>();

    let start = Instant::now();
    let blocks = extract(&content);
    let duration = start.elapsed();

    assert_eq!(blocks.len(), count, "Expected {} blocks, got {}", count, blocks.len());
    assert!(duration.as_secs() < 35, "Extraction took too long: {:?}", duration);
}

#[test]
fn test_large_file_apply_full_content_performance() {
    let blocks: Vec<ParsedBlock> = (0..1000)
        .map(|i| ParsedBlock {
            filename: format!("test{}.rs", i),
            content: format!("fn main() {{ println!(\"Hello, {}!\"); }}", i),
            block_type: BlockType::FullContent,
        })
        .collect();

    let start = Instant::now();
    for block in blocks {
        let out = apply_block(&block, None)
            .unwrap_or_else(|e| panic!("Failed to apply content: {:?}", e));
        assert_eq!(out, block.content);
    }
    let duration = start.elapsed();

    assert!(duration.as_secs() < 60, "Application took too long: {:?}", duration);
}

#[test]
fn test_large_diff_apply_performance() {
    let count = 10_000;
    let initial_content = (0..count)
        .map(|i| format!("fn main() {{ println!(\"Hello, {}!\"); }}\n", i))
        .collect::<String>();

    let mut diff_content = String::new();
    let mut current_line = 1;
    for i in 0..count {
        let old_line = format!("fn main() {{ println!(\"Hello, {}!\"); }}\n", i);
        let new_line = format!("fn main() {{ println!(\"Hello, updated {}!\"); }}\n", i);
        let hunk_header = format!("@@ -{},1 +{},1 @@\n", current_line, current_line);
        diff_content.push_str(&hunk_header);
        diff_content.push_str(&format!("-{}", old_line));
        diff_content.push_str(&format!("+{}", new_line));
        current_line += 1;
    }

    let block = ParsedBlock {
        filename: "large_test.rs".to_string(),
        content: format!("--- large_test.rs\n+++ large_test.rs\n{}", diff_content),
        block_type: BlockType::UnifiedDiff,
    };

    let start = Instant::now();
    let out = apply_block(&block, Some(&initial_content))
        .unwrap_or_else(|e| panic!("Failed to apply diff: {:?}", e));
    let duration = start.elapsed();

    let expected = (0..count)
        .map(|i| format!("fn main() {{ println!(\"Hello, updated {}!\"); }}\n", i))
        .collect::<String>();
    assert_eq!(out, expected);
    assert!(duration.as_secs() < 90, "Application took too long: {:?}", duration);
}
